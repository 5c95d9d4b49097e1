//! Brute-force verification of every structural invariant.
//!
//! What is checked is a plain copy of the index's data, and nothing here consults the index's own
//! bookkeeping: child lists are followed link by link, separation is checked pairwise, subtree
//! sums are taken by climbing from every point, and grid membership is recomputed from raw
//! coordinates.
use super::arena::{or_none, Node};
use super::grid_key;
use super::grids::{lemma_grid_key, level_of, pack};
use super::{Slot, NONE};
use crate::cells::holds;
use crate::geometry::{dist2, distance2, in_world, root_tenths, tenths, Geometry, Options};
use crate::grid::key_level;
use crate::sums::{lemma_total_ext, total};
use crate::text::{decimal, integer, number, push_decimal, push_integer, push_number, push_wide};
use vstd::prelude::*;
use vstd::string::StringExecFns;

verus! {

/// Summary of a successful verification.
#[derive(Debug, Clone, Copy, PartialEq, Eq, Structural)]
pub struct Verification {
    pub points: usize,
    /// Points that are a center at some level.
    pub centers: usize,
    /// Points that are never a center: they only ever appear inside a cluster.
    pub leaves: usize,
    /// How many (center, level) pairs the grids hold.
    pub grid_listings: usize,
    pub max_depth: usize,
}

/// The data of an index, copied out.
pub struct Dump {
    pub opts: Options,
    /// One node per slot.
    pub nodes: Vec<Node>,
    /// Per slot, the filter cells of its point.
    pub cells: Vec<Vec<u32>>,
    /// Per slot, the filter aggregates that are kept: cell, count, coordinate sums.
    pub sums: Vec<Vec<(u32, i32, i64, i64)>>,
    /// The slots that ids lead to.
    pub ids: Vec<(u64, Slot)>,
    /// How many ids there are.
    pub id_count: usize,
    /// The buckets of the grids, by cell key.
    pub listings: Vec<(u64, Vec<Slot>)>,
    /// How many entries of the grids' pool are in use.
    pub entries: usize,
}

/// A count and two coordinate sums.
#[derive(Debug, Clone, Copy, PartialEq, Eq, Structural)]
pub struct Numbers {
    pub count: i128,
    pub sx: i128,
    pub sy: i128,
}

impl Numbers {
    pub open spec fn text(&self) -> Seq<char> {
        "("@ + integer(self.count as int) + ","@ + integer(self.sx as int) + ","@ + integer(
            self.sy as int,
        ) + ")"@
    }

    fn push(&self, r: &mut String)
        ensures
            final(r)@ == old(r)@ + self.text(),
    {
        let ghost was = r@;
        r.append("(");
        push_wide(r, self.count);
        r.append(",");
        push_wide(r, self.sx);
        r.append(",");
        push_wide(r, self.sy);
        r.append(")");
        proof {
            assert(r@ =~= was + self.text());
        }
    }
}

/// What the rows of a slot add up to.
pub open spec fn row_sums(q: Seq<(u32, i32, i64, i64)>) -> (int, int, int)
    decreases q.len(),
{
    if q.len() == 0 {
        (0, 0, 0)
    } else {
        let m = row_sums(q.drop_last());
        (m.0 + q.last().1, m.1 + q.last().2, m.2 + q.last().3)
    }
}

/// Add up the rows of a slot.
fn add_rows(v: &Vec<(u32, i32, i64, i64)>) -> (r: Numbers)
    ensures
        (r.count as int, r.sx as int, r.sy as int) == row_sums(v@),
{
    let mut r = Numbers { count: 0, sx: 0, sy: 0 };
    let n = v.len();
    let mut i: usize = 0;
    proof {
        assert(v@.take(0) =~= Seq::<(u32, i32, i64, i64)>::empty());
    }
    while i < n
        invariant
            i <= n,
            n == v@.len(),
            (r.count as int, r.sx as int, r.sy as int) == row_sums(v@.take(i as int)),
            -0x8000_0000_0000_0000 * i <= r.count <= 0x7fff_ffff_ffff_ffff * i,
            -0x8000_0000_0000_0000 * i <= r.sx <= 0x7fff_ffff_ffff_ffff * i,
            -0x8000_0000_0000_0000 * i <= r.sy <= 0x7fff_ffff_ffff_ffff * i,
        decreases n - i,
    {
        let row = v[i];
        proof {
            assert(v@.take(i + 1).drop_last() =~= v@.take(i as int));
            assert(v@.take(i + 1).last() == row);
        }
        r = Numbers {
            count: r.count + row.1 as i128,
            sx: r.sx + row.2 as i128,
            sy: r.sy + row.3 as i128,
        };
        i = i + 1;
    }
    proof {
        assert(v@.take(n as int) =~= v@);
    }
    r
}

/// A violated invariant.
#[derive(Debug, Clone, Copy, PartialEq, Eq, Structural)]
pub enum Flaw {
    /// The parts of the copy do not fit each other.
    Shape,
    /// Two ids lead to one slot, or an id to none.
    DuplicateSlots,
    Outside { slot: Slot },
    Level { slot: Slot, level: i8 },
    RootParent { slot: Slot, parent: Slot },
    NoParent { slot: Slot, level: i8 },
    DeadParent { slot: Slot, parent: Slot },
    Inversion { slot: Slot, level: i8, parent: Slot, above: i8 },
    /// With the distance and the stretched radius, in tenths.
    Covering { slot: Slot, parent: Slot, level: i8, far: u64, limit: u128 },
    /// A child list comes upon a slot that it, or a list before it, has come upon.
    TwoLists { slot: Slot },
    /// A slot in the child list of `list` has another parent.
    WrongParent { slot: Slot, list: Slot, parent: Slot },
    PreviousSibling { slot: Slot },
    Unsorted { list: Slot },
    DeadChild { slot: Slot, list: Slot },
    NotListed { slot: Slot },
    /// With the distance and the radius, in tenths.
    Separation { a: Slot, b: Slot, level: i8, of_a: i8, of_b: i8, far: u64, limit: u128 },
    Count { slot: Slot, found: i32, want: i32 },
    SumX { slot: Slot, drift: i128 },
    SumY { slot: Slot, drift: i128 },
    /// With what the filter aggregates of the slot add up to, and its totals.
    Cells { slot: Slot, sums: Numbers, totals: Numbers },
    EmptyCell { level: u64 },
    DeadListing { slot: Slot, level: u64 },
    CoarseListing { slot: Slot, own: i8, level: u64 },
    WrongCell { slot: Slot, level: u64 },
    ListedTwice { slot: Slot, level: u64 },
    Missing { slot: Slot, own: i8, level: u64 },
    Leak { found: usize, want: usize },
}

impl Flaw {
    pub open spec fn text(&self) -> Seq<char> {
        match *self {
            Flaw::Shape => "the copy is malformed"@,
            Flaw::DuplicateSlots => "id map holds duplicate slots"@,
            Flaw::Outside { slot } => "slot "@ + number(slot as int) + " is outside the world"@,
            Flaw::Level { slot, level } => "slot "@ + number(slot as int) + " has level "@
                + integer(level as int),
            Flaw::RootParent { slot, parent } => "root "@ + number(slot as int) + " has parent "@
                + number(parent as int),
            Flaw::NoParent { slot, level } => "slot "@ + number(slot as int) + " at level "@
                + integer(level as int) + " has no parent"@,
            Flaw::DeadParent { slot, parent } => "slot "@ + number(slot as int) + " parent "@
                + number(parent as int) + " is dead"@,
            Flaw::Inversion { slot, level, parent, above } => "level inversion: "@
                + number(slot as int) + "@"@ + integer(level as int) + " under "@
                + number(parent as int) + "@"@ + integer(above as int),
            Flaw::Covering { slot, parent, level, far, limit } => "covering violated: d("@
                + number(slot as int) + ","@ + number(parent as int) + ")="@ + decimal(far as int)
                + " > "@ + decimal(limit as int) + " at level "@ + integer(level as int),
            Flaw::TwoLists { slot } => "node "@ + number(slot as int)
                + " appears in two child lists"@,
            Flaw::WrongParent { slot, list, parent } => "child "@ + number(slot as int) + " of "@
                + number(list as int) + " has parent "@ + number(parent as int),
            Flaw::PreviousSibling { slot } => "psib broken at "@ + number(slot as int),
            Flaw::Unsorted { list } => "child list of "@ + number(list as int)
                + " is not sorted by level"@,
            Flaw::DeadChild { slot, list } => "child "@ + number(slot as int) + " of "@
                + number(list as int) + " is dead"@,
            Flaw::NotListed { slot } => "node "@ + number(slot as int)
                + " is not in its parent's child list"@,
            Flaw::Separation { a, b, level, of_a, of_b, far, limit } => "separation violated at level "@
                + integer(level as int) + ": d("@ + number(a as int) + "@"@
                + integer(of_a as int) + ","@ + number(b as int) + "@"@ + integer(of_b as int)
                + ")="@ + decimal(far as int) + " <= "@ + decimal(limit as int),
            Flaw::Count { slot, found, want } => "cnt["@ + number(slot as int) + "]="@
                + integer(found as int) + " want "@ + integer(want as int),
            Flaw::SumX { slot, drift } => "sx["@ + number(slot as int) + "] drift "@
                + integer(drift as int),
            Flaw::SumY { slot, drift } => "sy["@ + number(slot as int) + "] drift "@
                + integer(drift as int),
            Flaw::Cells { slot, sums, totals } => "category slices of "@ + number(slot as int)
                + " sum to "@ + sums.text() + ", totals are "@ + totals.text(),
            Flaw::EmptyCell { level } => "empty cell left in the grid at level "@
                + number(level as int),
            Flaw::DeadListing { slot, level } => "dead slot "@ + number(slot as int)
                + " listed in grid level "@ + number(level as int),
            Flaw::CoarseListing { slot, own, level } => "slot "@ + number(slot as int) + "@"@
                + integer(own as int) + " listed at level "@ + number(level as int),
            Flaw::WrongCell { slot, level } => "slot "@ + number(slot as int)
                + " is in the wrong cell at level "@ + number(level as int),
            Flaw::ListedTwice { slot, level } => "slot "@ + number(slot as int)
                + " listed twice at level "@ + number(level as int),
            Flaw::Missing { slot, own, level } => "center "@ + number(slot as int) + "@"@
                + integer(own as int) + " missing from grid level "@ + number(level as int),
            Flaw::Leak { found, want } => "entry pool leak: "@ + number(found as int)
                + " live entries vs "@ + number(want as int) + " listings"@,
        }
    }

    /// The violation in words.
    pub fn message(&self) -> (r: String)
        ensures
            r@ == self.text(),
    {
        match *self {
            Flaw::Shape => String::from_str("the copy is malformed"),
            Flaw::DuplicateSlots => String::from_str("id map holds duplicate slots"),
            Flaw::Outside { slot } => {
                let mut r = String::from_str("slot ");
                push_number(&mut r, slot as u64);
                r.append(" is outside the world");
                r
            },
            Flaw::Level { slot, level } => {
                let mut r = String::from_str("slot ");
                push_number(&mut r, slot as u64);
                r.append(" has level ");
                push_integer(&mut r, level as i64);
                r
            },
            Flaw::RootParent { slot, parent } => {
                let mut r = String::from_str("root ");
                push_number(&mut r, slot as u64);
                r.append(" has parent ");
                push_number(&mut r, parent as u64);
                r
            },
            Flaw::NoParent { slot, level } => {
                let mut r = String::from_str("slot ");
                push_number(&mut r, slot as u64);
                r.append(" at level ");
                push_integer(&mut r, level as i64);
                r.append(" has no parent");
                r
            },
            Flaw::DeadParent { slot, parent } => {
                let mut r = String::from_str("slot ");
                push_number(&mut r, slot as u64);
                r.append(" parent ");
                push_number(&mut r, parent as u64);
                r.append(" is dead");
                r
            },
            Flaw::Inversion { slot, level, parent, above } => {
                let mut r = String::from_str("level inversion: ");
                push_number(&mut r, slot as u64);
                r.append("@");
                push_integer(&mut r, level as i64);
                r.append(" under ");
                push_number(&mut r, parent as u64);
                r.append("@");
                push_integer(&mut r, above as i64);
                r
            },
            Flaw::Covering { slot, parent, level, far, limit } => {
                let mut r = String::from_str("covering violated: d(");
                push_number(&mut r, slot as u64);
                r.append(",");
                push_number(&mut r, parent as u64);
                r.append(")=");
                push_decimal(&mut r, far as u128);
                r.append(" > ");
                push_decimal(&mut r, limit);
                r.append(" at level ");
                push_integer(&mut r, level as i64);
                r
            },
            Flaw::TwoLists { slot } => {
                let mut r = String::from_str("node ");
                push_number(&mut r, slot as u64);
                r.append(" appears in two child lists");
                r
            },
            Flaw::WrongParent { slot, list, parent } => {
                let mut r = String::from_str("child ");
                push_number(&mut r, slot as u64);
                r.append(" of ");
                push_number(&mut r, list as u64);
                r.append(" has parent ");
                push_number(&mut r, parent as u64);
                r
            },
            Flaw::PreviousSibling { slot } => {
                let mut r = String::from_str("psib broken at ");
                push_number(&mut r, slot as u64);
                r
            },
            Flaw::Unsorted { list } => {
                let mut r = String::from_str("child list of ");
                push_number(&mut r, list as u64);
                r.append(" is not sorted by level");
                r
            },
            Flaw::DeadChild { slot, list } => {
                let mut r = String::from_str("child ");
                push_number(&mut r, slot as u64);
                r.append(" of ");
                push_number(&mut r, list as u64);
                r.append(" is dead");
                r
            },
            Flaw::NotListed { slot } => {
                let mut r = String::from_str("node ");
                push_number(&mut r, slot as u64);
                r.append(" is not in its parent's child list");
                r
            },
            Flaw::Separation { a, b, level, of_a, of_b, far, limit } => {
                let mut r = String::from_str("separation violated at level ");
                push_integer(&mut r, level as i64);
                r.append(": d(");
                push_number(&mut r, a as u64);
                r.append("@");
                push_integer(&mut r, of_a as i64);
                r.append(",");
                push_number(&mut r, b as u64);
                r.append("@");
                push_integer(&mut r, of_b as i64);
                r.append(")=");
                push_decimal(&mut r, far as u128);
                r.append(" <= ");
                push_decimal(&mut r, limit);
                r
            },
            Flaw::Count { slot, found, want } => {
                let mut r = String::from_str("cnt[");
                push_number(&mut r, slot as u64);
                r.append("]=");
                push_integer(&mut r, found as i64);
                r.append(" want ");
                push_integer(&mut r, want as i64);
                r
            },
            Flaw::SumX { slot, drift } => {
                let mut r = String::from_str("sx[");
                push_number(&mut r, slot as u64);
                r.append("] drift ");
                push_wide(&mut r, drift);
                r
            },
            Flaw::SumY { slot, drift } => {
                let mut r = String::from_str("sy[");
                push_number(&mut r, slot as u64);
                r.append("] drift ");
                push_wide(&mut r, drift);
                r
            },
            Flaw::Cells { slot, sums, totals } => {
                let mut r = String::from_str("category slices of ");
                push_number(&mut r, slot as u64);
                r.append(" sum to ");
                sums.push(&mut r);
                r.append(", totals are ");
                totals.push(&mut r);
                r
            },
            Flaw::EmptyCell { level } => {
                let mut r = String::from_str("empty cell left in the grid at level ");
                push_number(&mut r, level as u64);
                r
            },
            Flaw::DeadListing { slot, level } => {
                let mut r = String::from_str("dead slot ");
                push_number(&mut r, slot as u64);
                r.append(" listed in grid level ");
                push_number(&mut r, level as u64);
                r
            },
            Flaw::CoarseListing { slot, own, level } => {
                let mut r = String::from_str("slot ");
                push_number(&mut r, slot as u64);
                r.append("@");
                push_integer(&mut r, own as i64);
                r.append(" listed at level ");
                push_number(&mut r, level as u64);
                r
            },
            Flaw::WrongCell { slot, level } => {
                let mut r = String::from_str("slot ");
                push_number(&mut r, slot as u64);
                r.append(" is in the wrong cell at level ");
                push_number(&mut r, level as u64);
                r
            },
            Flaw::ListedTwice { slot, level } => {
                let mut r = String::from_str("slot ");
                push_number(&mut r, slot as u64);
                r.append(" listed twice at level ");
                push_number(&mut r, level as u64);
                r
            },
            Flaw::Missing { slot, own, level } => {
                let mut r = String::from_str("center ");
                push_number(&mut r, slot as u64);
                r.append("@");
                push_integer(&mut r, own as i64);
                r.append(" missing from grid level ");
                push_number(&mut r, level as u64);
                r
            },
            Flaw::Leak { found, want } => {
                let mut r = String::from_str("entry pool leak: ");
                push_number(&mut r, found as u64);
                r.append(" live entries vs ");
                push_number(&mut r, want as u64);
                r.append(" listings");
                r
            },
        }
    }
}

impl Dump {
    pub open spec fn n(&self) -> int {
        self.nodes.len() as int
    }

    pub open spec fn top(&self) -> int {
        self.opts.max_zoom as int
    }

    /// The `i`-th id leads to slot `s`.
    pub open spec fn leads(&self, i: int, s: int) -> bool {
        0 <= i < self.ids.len() && self.ids[i].1 == s
    }

    /// Slot `s` is in the tree.
    pub open spec fn has(&self, s: int) -> bool {
        exists|i: int| self.leads(i, s)
    }

    pub open spec fn far(&self, a: int, b: int) -> int {
        dist2(
            self.nodes[a].qx as int,
            self.nodes[a].qy as int,
            self.nodes[b].qx as int,
            self.nodes[b].qy as int,
        )
    }

    /// The parts fit each other.
    pub open spec fn fitted(&self) -> bool {
        &&& self.opts.valid()
        &&& self.n() <= 0x0800_0000
        &&& self.cells.len() == self.n()
        &&& self.sums.len() == self.n()
        &&& self.id_count == self.ids.len()
    }

    /// The parts fit each other, and ids lead to distinct slots.
    pub open spec fn shaped(&self) -> bool {
        &&& self.fitted()
        &&& forall|i: int| 0 <= i < self.ids.len() ==> (#[trigger] self.ids[i]).1 < self.n()
        &&& forall|i: int, j: int|
            0 <= i < j < self.ids.len() ==> (#[trigger] self.ids[i]).1 != (#[trigger] self.ids[j]).1
    }

    /// Slot `s` is in the world.
    pub open spec fn inside(&self, s: int) -> bool {
        in_world(self.nodes[s].qx as int) && in_world(self.nodes[s].qy as int)
    }

    /// Tree shape: levels strictly increase downward, roots are at level 0, and every child is
    /// covered by its parent, with slack.
    pub open spec fn placed(&self, s: int) -> bool {
        let v = self.nodes[s];
        &&& self.inside(s)
        &&& 0 <= v.tz <= self.top() + 1
        &&& v.tz == 0 ==> v.par == NONE
        &&& v.tz > 0 ==> {
            &&& v.par != NONE
            &&& self.has(v.par as int)
            &&& self.nodes[v.par as int].tz < v.tz
            &&& self.opts.near_with_slack(v.tz - 1, self.far(v.par as int, s))
        }
    }

    /// The slots below `m` are in the world.
    pub open spec fn inside_to(&self, m: int) -> bool {
        forall|s: int| #[trigger] self.has(s) && s < m ==> self.inside(s)
    }

    /// The slots below `m` are placed as they should be.
    pub open spec fn placed_to(&self, m: int) -> bool {
        forall|s: int| #[trigger] self.has(s) && s < m ==> self.placed(s)
    }

    #[verifier::opaque]
    pub open spec fn all_placed(&self) -> bool {
        forall|s: int| #[trigger] self.has(s) ==> self.placed(s)
    }

    pub(super) proof fn lemma_placed(&self, s: int)
        requires
            self.all_placed(),
            self.has(s),
        ensures
            self.placed(s),
    {
        reveal(Dump::all_placed);
    }

    /// `q` is the child list of `s`, link by link, coarser levels first.
    pub open spec fn list_of(&self, s: int, q: Seq<int>) -> bool {
        &&& self.nodes[s].kid == or_none(q, 0)
        &&& q.no_duplicates()
        &&& forall|i: int| #![trigger q[i]] 0 <= i < q.len() ==> self.entry_of(s, q, i)
        &&& forall|i: int, j: int|
            0 <= i < j < q.len() ==> self.nodes[#[trigger] q[i]].tz <= self.nodes[#[trigger] q[j]].tz
    }

    pub open spec fn entry_of(&self, s: int, q: Seq<int>, i: int) -> bool {
        &&& self.has(q[i])
        &&& self.nodes[q[i]].par == s
        &&& self.nodes[q[i]].sib == or_none(q, i + 1)
        &&& self.nodes[q[i]].psib == or_none(q, i - 1)
    }

    /// The links from slot `s` make a child list.
    pub open spec fn has_list(&self, s: int) -> bool {
        exists|q: Seq<int>| #[trigger] self.list_of(s, q)
    }

    /// The child list of slot `s` holds slot `c`.
    pub open spec fn lists_child(&self, s: int, c: int) -> bool {
        exists|q: Seq<int>| #[trigger] self.list_of(s, q) && q.contains(c)
    }

    /// The links from the slots below `m` make child lists.
    #[verifier::opaque]
    pub open spec fn lists_to(&self, m: int) -> bool {
        forall|s: int| #[trigger] self.has(s) && s < m ==> self.has_list(s)
    }

    /// The slots below `m` that have a parent are in its child list.
    #[verifier::opaque]
    pub open spec fn hung_to(&self, m: int) -> bool {
        forall|s: int| #[trigger]
            self.has(s) && s < m && self.nodes[s].par != NONE ==> self.lists_child(
                self.nodes[s].par as int,
                s,
            )
    }

    /// Child lists agree with parent pointers, and are sorted by level.
    #[verifier::opaque]
    pub open spec fn listed(&self) -> bool {
        &&& forall|s: int| #[trigger] self.has(s) ==> self.has_list(s)
        &&& forall|s: int| #[trigger]
            self.has(s) && self.nodes[s].par != NONE ==> self.lists_child(
                self.nodes[s].par as int,
                s,
            )
    }

    /// `q` is the beginning of the child list of `s`, and the link behind it leads to `c`.
    pub open spec fn walked(&self, s: int, q: Seq<int>, c: int) -> bool {
        &&& self.nodes[s].kid == (if q.len() > 0 {
            q[0]
        } else {
            c
        })
        &&& q.no_duplicates()
        &&& forall|i: int| #![trigger q[i]] 0 <= i < q.len() ==> self.step(s, q, c, i)
        &&& forall|i: int, j: int|
            0 <= i < j < q.len() ==> self.nodes[#[trigger] q[i]].tz <= self.nodes[#[trigger] q[j]].tz
    }

    pub open spec fn step(&self, s: int, q: Seq<int>, c: int, i: int) -> bool {
        &&& self.has(q[i])
        &&& self.nodes[q[i]].par == s
        &&& self.nodes[q[i]].sib == (if i + 1 < q.len() {
            q[i + 1]
        } else {
            c
        })
        &&& self.nodes[q[i]].psib == or_none(q, i - 1)
    }

    /// Following the child list of `s` past `q`, behind the lists of the slots below it, leads to
    /// slot `c`.
    pub open spec fn comes_upon(&self, s: int, q: Seq<int>, c: int) -> bool {
        &&& self.shaped()
        &&& self.all_placed()
        &&& self.lists_to(s)
        &&& self.has(s)
        &&& self.walked(s, q, c)
        &&& c != NONE
    }

    /// Slot `c` is in the child list of a slot below `s`.
    pub open spec fn earlier(&self, s: int, c: int) -> bool {
        exists|t: int| #[trigger] self.has(t) && t < s && self.lists_child(t, c)
    }

    /// Slot `c` is in `q` or in the child list of a slot below `s`.
    pub open spec fn met(&self, s: int, q: Seq<int>, c: int) -> bool {
        q.contains(c) || self.earlier(s, c)
    }

    /// **Separation**: two centers of a level are more than its radius apart.
    pub open spec fn apart(&self, a: int, b: int) -> bool {
        let z = self.finer(a, b);
        z <= self.top() ==> !self.opts.near(z, self.far(a, b))
    }

    /// The finer of the levels of two slots.
    pub open spec fn finer(&self, a: int, b: int) -> int {
        let (t, u) = (self.nodes[a].tz as int, self.nodes[b].tz as int);
        if t > u {
            t
        } else {
            u
        }
    }

    pub open spec fn all_apart(&self) -> bool {
        forall|a: int, b: int|
            #![trigger self.has(a), self.has(b)]
            self.has(a) && self.has(b) && a != b ==> self.apart(a, b)
    }

    /// The pairs before `(a, b)` are apart.
    pub open spec fn apart_to(&self, a: int, b: int) -> bool {
        forall|c: int, d: int|
            #![trigger self.has(c), self.has(d)]
            self.has(c) && self.has(d) && c < d && (c < a || (c == a && d < b)) ==> self.apart(c, d)
    }

    /// Slot `p` is slot `s` or hangs below it.
    pub open spec fn under(&self, s: int, p: int) -> bool
        decreases self.nodes[p].tz as int,
    {
        p == s || (self.nodes[p].par != NONE && 0 <= self.nodes[self.nodes[p].par as int].tz
            < self.nodes[p].tz && self.under(s, self.nodes[p].par as int))
    }

    /// What the point of slot `p` adds to cell `c`, or with a negative one to the whole: its
    /// count or a coordinate.
    pub open spec fn own(&self, a: int, c: int, p: int) -> int {
        if c < 0 || holds(self.cells[p]@, c) {
            if a == 0 {
                1
            } else if a == 1 {
                self.nodes[p].qx as int
            } else {
                self.nodes[p].qy as int
            }
        } else {
            0
        }
    }

    pub open spec fn own_under(&self, a: int, c: int, s: int) -> spec_fn(int) -> int {
        |p: int|
            if self.has(p) && self.under(s, p) {
                self.own(a, c, p)
            } else {
                0
            }
    }

    /// What the points of the subtree of slot `s` sum up to.
    pub open spec fn mass(&self, a: int, c: int, s: int) -> int {
        total(self.n(), self.own_under(a, c, s))
    }

    /// What is kept for a slot and a cell.
    pub open spec fn kept(&self, s: int, c: int) -> (int, int, int) {
        kept_in(self.sums[s]@, c)
    }

    /// The totals of slot `s` are the sums over its subtree.
    pub open spec fn weighed(&self, s: int) -> bool {
        &&& self.nodes[s].cnt == self.mass(0, -1, s)
        &&& self.nodes[s].sx == self.mass(1, -1, s)
        &&& self.nodes[s].sy == self.mass(2, -1, s)
    }

    pub open spec fn cell_weighed(&self, s: int, c: int) -> bool {
        self.kept(s, c) == (self.mass(0, c, s), self.mass(1, c, s), self.mass(2, c, s))
    }

    /// The filter aggregates of slot `s` are the sums over its subtree.
    pub open spec fn cells_weighed(&self, s: int) -> bool {
        forall|c: int| c >= 0 ==> #[trigger] self.cell_weighed(s, c)
    }

    pub open spec fn weighed_to(&self, m: int) -> bool {
        forall|s: int| #[trigger] self.has(s) && s < m ==> self.weighed(s)
    }

    pub open spec fn cells_weighed_to(&self, m: int) -> bool {
        self.opts.cells_in_force() > 0 ==> forall|s: int| #[trigger]
            self.has(s) && s < m ==> self.cells_weighed(s)
    }

    /// A bucket lists slots of the tree, under the right cell of a level they are centers of.
    pub open spec fn bucket_ok(&self, i: int) -> bool {
        let (k, q) = self.listings[i];
        &&& q.len() > 0
        &&& forall|j: int| 0 <= j < q.len() ==> #[trigger] self.listing_ok(i, j)
    }

    pub open spec fn listing_ok(&self, i: int, j: int) -> bool {
        let (k, q) = self.listings[i];
        let s = q[j] as int;
        &&& self.has(s)
        &&& self.nodes[s].tz <= key_level(k)
        &&& self.right_cell(s, k)
    }

    /// The key is that of slot `s` on a level of the grids.
    pub open spec fn right_cell(&self, s: int, k: u64) -> bool {
        &&& key_level(k) <= self.top()
        &&& k == grid_key(
            self.opts,
            self.nodes[s].qx as int,
            self.nodes[s].qy as int,
            key_level(k),
        )
    }

    /// The `j`-th slot of the `i`-th bucket is `s`, and the bucket is of level `z`.
    pub open spec fn lists_at(&self, i: int, j: int, s: int, z: int) -> bool {
        0 <= i < self.listings.len() && 0 <= j < self.listings[i].1.len() && self.listings[i].1[j]
            == s && key_level(self.listings[i].0) == z
    }

    /// Before the `j`-th slot of the `i`-th bucket, slot `s` is listed at level `z`.
    pub open spec fn listed_before(&self, i: int, j: int, s: int, z: int) -> bool {
        exists|k: int, l: int| #[trigger]
            self.lists_at(k, l, s, z) && (k < i || (k == i && l < j))
    }

    /// Before the `j`-th slot of the `i`-th bucket, listings are right and single.
    pub open spec fn listings_to(&self, i: int, j: int) -> bool {
        &&& forall|k: int| 0 <= k < i ==> #[trigger] self.bucket_ok(k)
        &&& forall|l: int| 0 <= l < j ==> #[trigger] self.listing_ok(i, l)
        &&& forall|k: int, l: int, c: int, d: int, s: int, z: int|
            #![trigger self.lists_at(k, l, s, z), self.lists_at(c, d, s, z)]
            self.lists_at(k, l, s, z) && self.lists_at(c, d, s, z) && (k < i || (k == i && l < j))
                && (c < i || (c == i && d < j)) ==> k == c && l == d
    }

    /// The grids list slot `s` at level `z`.
    pub open spec fn gives(&self, s: int, z: int) -> bool {
        exists|i: int, j: int| self.lists_at(i, j, s, z)
    }

    /// How many levels slot `s` is a center of.
    pub open spec fn levels(&self, s: int) -> int {
        if self.has(s) && self.nodes[s].tz <= self.top() {
            self.top() + 1 - self.nodes[s].tz
        } else {
            0
        }
    }

    /// Slot `s` is a center of level `z`.
    pub open spec fn expects(&self, s: int, z: int) -> bool {
        self.has(s) && self.nodes[s].tz <= z <= self.top()
    }

    /// Before level `z` of slot `s`, every center is listed where it should be.
    pub open spec fn given_to(&self, s: int, z: int) -> bool {
        forall|t: int, v: int| #[trigger]
            self.expects(t, v) && (t < s || (t == s && v < z)) ==> self.gives(t, v)
    }

    /// The grids hold exactly the centers, once each on every level they are centers of.
    pub open spec fn gridded(&self) -> bool {
        &&& self.listings_to(self.listings.len() as int, 0)
        &&& forall|s: int, z: int| #[trigger] self.expects(s, z) ==> self.gives(s, z)
        &&& self.entries == total(self.n(), |s: int| self.levels(s))
    }

    /// The tree is in order.
    pub open spec fn grown(&self) -> bool {
        self.shaped() && self.all_placed() && self.listed() && self.all_apart()
    }

    /// The tree and its totals are in order.
    pub open spec fn totalled(&self) -> bool {
        self.grown() && self.weighed_to(self.n())
    }

    /// The tree, its totals and its filter aggregates are in order.
    pub open spec fn filled(&self) -> bool {
        self.totalled() && self.cells_weighed_to(self.n())
    }

    /// Everything is in order.
    pub open spec fn sound(&self) -> bool {
        self.filled() && self.gridded()
    }
}

impl Dump {
    /// The violation is there, and it is the first: everything that comes before it is in order.
    pub open spec fn flawed(&self, f: Flaw) -> bool {
        match f {
            Flaw::Shape => !self.fitted(),
            Flaw::DuplicateSlots => self.fitted() && !self.shaped(),
            Flaw::Outside { slot } => self.shaped() && self.inside_to(slot as int) && self.has(
                slot as int,
            ) && !self.inside(slot as int),
            Flaw::Level { slot, level } => self.judges(slot as int) && level
                == self.nodes[slot as int].tz && !(0 <= level <= self.top() + 1),
            Flaw::RootParent { slot, parent } => self.judges(slot as int)
                && self.nodes[slot as int].tz == 0 && self.nodes[slot as int].par == parent
                && parent != NONE,
            Flaw::NoParent { slot, level } => self.judges(slot as int) && level
                == self.nodes[slot as int].tz && 0 < level <= self.top() + 1
                && self.nodes[slot as int].par == NONE,
            Flaw::DeadParent { slot, parent } => self.judges_child(slot as int, parent)
                && !self.has(parent as int),
            Flaw::Inversion { slot, level, parent, above } => self.judges_child(
                slot as int,
                parent,
            ) && self.has(parent as int) && level == self.nodes[slot as int].tz && above
                == self.nodes[parent as int].tz && above >= level,
            Flaw::Covering { slot, parent, level, far, limit } => self.judges_child(
                slot as int,
                parent,
            )
                && self.has(parent as int) && self.nodes[parent as int].tz
                < self.nodes[slot as int].tz && level == self.nodes[slot as int].tz - 1
                && !self.opts.near_with_slack(level as int, self.far(parent as int, slot as int))
                && root_tenths(self.far(parent as int, slot as int), far as int) && limit
                == self.opts.slack_tenths(level as int),
            Flaw::TwoLists { .. } => self.list_flawed(f),
            Flaw::WrongParent { .. } => self.list_flawed(f),
            Flaw::PreviousSibling { .. } => self.list_flawed(f),
            Flaw::Unsorted { .. } => self.list_flawed(f),
            Flaw::DeadChild { .. } => self.list_flawed(f),
            Flaw::NotListed { slot } => {
                &&& self.shaped()
                &&& self.all_placed()
                &&& self.lists_to(self.n())
                &&& self.hung_to(slot as int)
                &&& self.has(slot as int)
                &&& self.nodes[slot as int].par != NONE
                &&& forall|s: int| #[trigger] self.has(s) ==> !self.lists_child(s, slot as int)
            },
            Flaw::Separation { a, b, level, of_a, of_b, far, limit } => {
                &&& self.shaped() && self.all_placed() && self.listed()
                &&& self.apart_to(a as int, b as int)
                &&& self.has(a as int) && self.has(b as int) && a < b
                &&& of_a == self.nodes[a as int].tz
                &&& of_b == self.nodes[b as int].tz
                &&& level == self.finer(a as int, b as int)
                &&& level <= self.top()
                &&& self.opts.near(level as int, self.far(a as int, b as int))
                &&& root_tenths(self.far(a as int, b as int), far as int)
                &&& limit == self.opts.radius_tenths(level as int)
            },
            Flaw::Count { slot, found, want } => self.grown() && self.weighed_to(slot as int)
                && self.has(slot as int) && found == self.nodes[slot as int].cnt && want
                == self.mass(0, -1, slot as int) && found != want,
            Flaw::SumX { slot, drift } => self.grown() && self.weighed_to(slot as int) && self.has(
                slot as int,
            ) && self.nodes[slot as int].cnt == self.mass(0, -1, slot as int) && drift
                == self.nodes[slot as int].sx - self.mass(1, -1, slot as int) && drift != 0,
            Flaw::SumY { slot, drift } => self.grown() && self.weighed_to(slot as int) && self.has(
                slot as int,
            ) && self.nodes[slot as int].cnt == self.mass(0, -1, slot as int)
                && self.nodes[slot as int].sx == self.mass(1, -1, slot as int) && drift
                == self.nodes[slot as int].sy - self.mass(2, -1, slot as int) && drift != 0,
            Flaw::Cells { slot, sums, totals } => {
                let v = self.nodes[slot as int];
                &&& self.totalled() && self.opts.cells_in_force() > 0
                &&& self.cells_weighed_to(slot as int) && self.has(slot as int)
                &&& !self.cells_weighed(slot as int)
                &&& (sums.count as int, sums.sx as int, sums.sy as int) == row_sums(
                    self.sums[slot as int]@,
                )
                &&& (totals.count as int, totals.sx as int, totals.sy as int) == (
                    v.cnt as int,
                    v.sx as int,
                    v.sy as int,
                )
            },
            Flaw::EmptyCell { .. } => self.filled() && self.listing_flawed(f),
            Flaw::DeadListing { .. } => self.filled() && self.listing_flawed(f),
            Flaw::CoarseListing { .. } => self.filled() && self.listing_flawed(f),
            Flaw::WrongCell { .. } => self.filled() && self.listing_flawed(f),
            Flaw::ListedTwice { .. } => self.filled() && self.listing_flawed(f),
            Flaw::Missing { slot, own, level } => {
                &&& self.filled()
                &&& self.listings_to(self.listings.len() as int, 0)
                &&& self.given_to(slot as int, level as int)
                &&& self.expects(slot as int, level as int)
                &&& own == self.nodes[slot as int].tz
                &&& !self.gives(slot as int, level as int)
            },
            Flaw::Leak { found, want } => {
                &&& self.filled()
                &&& self.listings_to(self.listings.len() as int, 0)
                &&& forall|s: int, z: int| #[trigger] self.expects(s, z) ==> self.gives(s, z)
                &&& found == self.entries
                &&& want == total(self.n(), |s: int| self.levels(s))
                &&& found != want
            },
        }
    }

    /// Following the child lists comes upon the violation.
    pub open spec fn list_flawed(&self, f: Flaw) -> bool {
        exists|s: int, q: Seq<int>, c: int| #[trigger] self.list_flaw(f, s, q, c)
    }

    /// Behind `q`, the child list of `s` comes upon slot `c`, which does not belong there.
    pub open spec fn list_flaw(&self, f: Flaw, s: int, q: Seq<int>, c: int) -> bool {
        &&& self.comes_upon(s, q, c)
        &&& match f {
            Flaw::TwoLists { slot } => slot == c && c < self.n() && self.met(s, q, c),
            Flaw::WrongParent { slot, list, parent } => slot == c && list == s && c < self.n()
                && !self.met(s, q, c) && self.nodes[c].par == parent && parent != list,
            Flaw::PreviousSibling { slot } => slot == c && self.child_next(s, q, c)
                && !self.behind_last(q, c),
            Flaw::Unsorted { list } => list == s && self.child_next(s, q, c) && self.behind_last(
                q,
                c,
            ) && !self.no_coarser(q, c),
            Flaw::DeadChild { slot, list } => slot == c && list == s && (c >= self.n() || (
            self.child_next(s, q, c) && self.behind_last(q, c) && self.no_coarser(q, c)
                && !self.has(c))),
            _ => false,
        }
    }

    /// Going through the buckets comes upon the violation.
    pub open spec fn listing_flawed(&self, f: Flaw) -> bool {
        exists|i: int, j: int| #[trigger] self.listing_flaw(f, i, j)
    }

    /// The `j`-th slot of the `i`-th bucket does not belong there, or the bucket is empty.
    pub open spec fn listing_flaw(&self, f: Flaw, i: int, j: int) -> bool {
        &&& self.listings_to(i, j)
        &&& match f {
            Flaw::EmptyCell { level } => 0 <= i < self.listings.len() && j == 0
                && self.listings[i].1.len() == 0 && level == key_level(self.listings[i].0),
            Flaw::DeadListing { slot, level } => self.lists_at(i, j, slot as int, level as int)
                && !self.has(slot as int),
            Flaw::CoarseListing { slot, own, level } => self.lists_at(
                i,
                j,
                slot as int,
                level as int,
            ) && self.has(slot as int) && own == self.nodes[slot as int].tz && own > level,
            Flaw::WrongCell { slot, level } => self.lists_at(i, j, slot as int, level as int)
                && self.has(slot as int) && self.nodes[slot as int].tz <= level
                && !self.right_cell(slot as int, self.listings[i].0),
            Flaw::ListedTwice { slot, level } => self.lists_at(i, j, slot as int, level as int)
                && self.listing_ok(i, j) && self.listed_before(i, j, slot as int, level as int),
            _ => false,
        }
    }

    /// All slots are in the world, those below `s` are placed as they should be, and it is the
    /// turn of `s`.
    pub open spec fn judges(&self, s: int) -> bool {
        self.shaped() && self.inside_to(self.n()) && self.placed_to(s) && self.has(s)
    }

    /// It is the turn of `s`, which has a level below the roots and a parent.
    pub open spec fn judges_child(&self, s: int, parent: Slot) -> bool {
        &&& self.judges(s)
        &&& 0 < self.nodes[s].tz <= self.top() + 1
        &&& self.nodes[s].par == parent
        &&& parent != NONE
    }

    /// `c`, new to the lists, is a child of `s`.
    pub open spec fn child_next(&self, s: int, q: Seq<int>, c: int) -> bool {
        c < self.n() && !self.met(s, q, c) && self.nodes[c].par == s
    }

    /// `c` says that it comes behind the last of `q`.
    pub open spec fn behind_last(&self, q: Seq<int>, c: int) -> bool {
        self.nodes[c].psib == or_none(q, q.len() - 1)
    }

    /// `c` is not of a coarser level than the last of `q`.
    pub open spec fn no_coarser(&self, q: Seq<int>, c: int) -> bool {
        q.len() > 0 ==> self.nodes[q[q.len() - 1]].tz <= self.nodes[c].tz
    }

    /// Where the child lists are in order, the next of a list is a child that comes behind the
    /// others and is new.
    proof fn lemma_upon(&self, s: int, q: Seq<int>, c: int)
        requires
            self.comes_upon(s, q, c),
            self.listed(),
        ensures
            0 <= c < self.n(),
            self.has(c),
            !self.met(s, q, c),
            self.nodes[c].par == s,
            self.behind_last(q, c),
            self.no_coarser(q, c),
    {
        assert(self.has_list(s)) by {
            reveal(Dump::listed);
        }
        let r = choose|r: Seq<int>| #[trigger] self.list_of(s, r);
        self.lemma_walk(s, q, c, r, q.len() as int);
        let m = q.len() as int;
        assert(m < r.len() && r[m] == c);
        assert(self.entry_of(s, r, m));
        self.lemma_slot_range(c);
        if q.contains(c) {
            let i = q.index_of(c);
            assert(q[i] == r[i]);
        }
        if self.earlier(s, c) {
            let t = choose|t: int| #[trigger] self.has(t) && t < s && self.lists_child(t, c);
            let p = choose|p: Seq<int>| #[trigger] self.list_of(t, p) && p.contains(c);
            let i = p.index_of(c);
            assert(self.entry_of(t, p, i));
        }
        if m > 0 {
            assert(q[m - 1] == r[m - 1]);
            assert(self.nodes[r[m - 1]].tz <= self.nodes[r[m]].tz);
        }
    }

    /// In grids that are in order nothing is found.
    proof fn lemma_listing(&self, f: Flaw, i: int, j: int)
        requires
            self.gridded(),
        ensures
            !self.listing_flaw(f, i, j),
    {
        if self.listing_flaw(f, i, j) {
            assert(0 <= i < self.listings.len());
            assert(self.bucket_ok(i));
            match f {
                Flaw::EmptyCell { .. } => {},
                Flaw::ListedTwice { slot, level } => {
                    let (s, z) = (slot as int, level as int);
                    let (k, l) = choose|k: int, l: int| #[trigger]
                        self.lists_at(k, l, s, z) && (k < i || (k == i && l < j));
                    assert(self.lists_at(i, j, s, z) && self.lists_at(k, l, s, z));
                },
                _ => {
                    assert(self.listing_ok(i, j));
                },
            }
        }
    }

    proof fn lemma_flawed(&self, f: Flaw)
        requires
            self.flawed(f),
        ensures
            !self.sound(),
    {
        if self.sound() {
            if self.list_flawed(f) {
                let (s, q, c) = choose|s: int, q: Seq<int>, c: int| #[trigger]
                    self.list_flaw(f, s, q, c);
                self.lemma_upon(s, q, c);
            }
            if self.listing_flawed(f) {
                let (i, j) = choose|i: int, j: int| #[trigger] self.listing_flaw(f, i, j);
                self.lemma_listing(f, i, j);
            }
            match f {
                Flaw::Outside { slot } => {
                    self.lemma_placed(slot as int);
                },
                Flaw::Level { slot, .. } => {
                    self.lemma_placed(slot as int);
                },
                Flaw::RootParent { slot, .. } => {
                    self.lemma_placed(slot as int);
                },
                Flaw::NoParent { slot, .. } => {
                    self.lemma_placed(slot as int);
                },
                Flaw::DeadParent { slot, .. } => {
                    self.lemma_placed(slot as int);
                },
                Flaw::Inversion { slot, .. } => {
                    self.lemma_placed(slot as int);
                },
                Flaw::Covering { slot, .. } => {
                    self.lemma_placed(slot as int);
                },
                Flaw::NotListed { slot } => {
                    self.lemma_placed(slot as int);
                    assert(self.lists_child(self.nodes[slot as int].par as int, slot as int)) by {
                        reveal(Dump::listed);
                    }
                    assert(self.has(self.nodes[slot as int].par as int));
                },
                Flaw::Separation { a, b, .. } => {
                    assert(self.apart(a as int, b as int));
                },
                Flaw::Count { slot, .. } => {
                    self.lemma_slot_range(slot as int);
                    assert(self.weighed(slot as int));
                },
                Flaw::SumX { slot, .. } => {
                    self.lemma_slot_range(slot as int);
                    assert(self.weighed(slot as int));
                },
                Flaw::SumY { slot, .. } => {
                    self.lemma_slot_range(slot as int);
                    assert(self.weighed(slot as int));
                },
                Flaw::Cells { slot, .. } => {
                    self.lemma_slot_range(slot as int);
                    assert(self.cells_weighed(slot as int));
                },
                Flaw::Missing { slot, level, .. } => {
                    assert(self.expects(slot as int, level as int));
                },
                _ => {},
            }
        }
    }

    proof fn lemma_slot_range(&self, s: int)
        requires
            self.shaped(),
            self.has(s),
        ensures
            0 <= s < self.n(),
            s != NONE,
    {
        let i = choose|i: int| self.leads(i, s);
        assert(self.ids[i].1 < self.n());
    }

    proof fn lemma_same_links(&self, s: int, p: Seq<int>, q: Seq<int>, m: int)
        requires
            self.shaped(),
            self.list_of(s, p),
            self.list_of(s, q),
            0 <= m <= p.len(),
            m <= q.len(),
        ensures
            forall|i: int| 0 <= i < m ==> #[trigger] p[i] == q[i],
        decreases m,
    {
        if m > 0 {
            self.lemma_same_links(s, p, q, m - 1);
            if m > 1 {
                assert(self.entry_of(s, p, m - 2) && self.entry_of(s, q, m - 2));
                assert(p[m - 2] == q[m - 2]);
            }
        }
    }

    /// Which slots are in the tree.
    fn live_slots(&self) -> (r: Result<Vec<bool>, Flaw>)
        ensures
            match r {
                Ok(live) => {
                    &&& self.shaped()
                    &&& live@.len() == self.n()
                    &&& forall|s: int| 0 <= s < self.n() ==> #[trigger] live@[s] == self.has(s)
                    &&& forall|s: int| #[trigger] self.has(s) ==> 0 <= s < self.n()
                },
                Err(f) => self.flawed(f),
            },
    {
        let n = self.nodes.len();
        if !self.opts.is_valid() || n > 0x0800_0000 || self.cells.len() != n || self.sums.len() != n
            || self.id_count != self.ids.len() {
            return Err(Flaw::Shape);
        }
        let mut live: Vec<bool> = Vec::new();
        let mut i: usize = 0;
        while i < n
            invariant
                i <= n,
                live@.len() == i,
                forall|s: int| 0 <= s < i ==> #[trigger] live@[s] == false,
            decreases n - i,
        {
            live.push(false);
            i = i + 1;
        }
        i = 0;
        while i < self.ids.len()
            invariant
                self.fitted(),
                n == self.n(),
                i <= self.ids.len(),
                live@.len() == n,
                forall|j: int| 0 <= j < i ==> (#[trigger] self.ids[j]).1 < n,
                forall|j: int, k: int|
                    0 <= j < k < i ==> (#[trigger] self.ids[j]).1 != (#[trigger] self.ids[k]).1,
                forall|s: int|
                    0 <= s < n ==> #[trigger] live@[s] == exists|j: int|
                        j < i && #[trigger] self.leads(j, s),
            decreases self.ids.len() - i,
        {
            let s = self.ids[i].1;
            if s as usize >= n {
                return Err(Flaw::DuplicateSlots);
            }
            if live[s as usize] {
                proof {
                    assert(live@[s as int]);
                    let j = choose|j: int| j < i && #[trigger] self.leads(j, s as int);
                    assert(self.ids[j].1 == self.ids[i as int].1);
                }
                return Err(Flaw::DuplicateSlots);
            }
            let ghost before = live@;
            live[s as usize] = true;
            proof {
                assert(self.leads(i as int, s as int));
                assert forall|t: int| 0 <= t < n implies #[trigger] live@[t] == exists|j: int|
                    j < i + 1 && #[trigger] self.leads(j, t) by {
                    if t != s {
                        assert(live@[t] == before[t]);
                        if exists|j: int| j < i + 1 && #[trigger] self.leads(j, t) {
                            let j = choose|j: int| j < i + 1 && #[trigger] self.leads(j, t);
                            assert(j < i);
                        }
                        if before[t] {
                            let j = choose|j: int| j < i && #[trigger] self.leads(j, t);
                            assert(self.leads(j, t));
                        }
                    }
                }
                assert forall|j: int, k: int| 0 <= j < k < i + 1 implies (#[trigger] self.ids[j]).1
                    != (#[trigger] self.ids[k]).1 by {
                    if k == i && self.ids[j].1 == s {
                        assert(self.leads(j, s as int));
                        assert(before[s as int]);
                    }
                }
            }
            i = i + 1;
        }
        proof {
            assert forall|s: int| 0 <= s < self.n() implies #[trigger] live@[s] == self.has(s) by {
                if self.has(s) {
                    let j = choose|j: int| self.leads(j, s);
                    assert(j < i && self.leads(j, s));
                }
            }
            assert(self.shaped());
            assert forall|s: int| #[trigger] self.has(s) implies 0 <= s < self.n() by {
                self.lemma_slot_range(s);
            }
        }
        Ok(live)
    }

    /// Whether a slot is placed as it should be, and else why not.
    fn check_place(&self, geo: &Geometry, live: &Vec<bool>, s: Slot) -> (r: Option<Flaw>)
        requires
            self.shaped(),
            geo.wf(),
            geo.options() == self.opts,
            live@.len() == self.n(),
            forall|t: int| 0 <= t < self.n() ==> #[trigger] live@[t] == self.has(t),
            forall|t: int| #[trigger] self.has(t) ==> 0 <= t < self.n(),
            self.judges(s as int),
        ensures
            match r {
                Some(f) => self.flawed(f),
                None => self.placed(s as int),
            },
    {
        let v = self.nodes[s as usize];
        if v.tz < 0 || v.tz > (self.opts.max_zoom + 1) as i8 {
            return Some(Flaw::Level { slot: s, level: v.tz });
        }
        if v.tz == 0 {
            if v.par != NONE {
                return Some(Flaw::RootParent { slot: s, parent: v.par });
            }
            return None;
        }
        if v.par == NONE {
            return Some(Flaw::NoParent { slot: s, level: v.tz });
        }
        if v.par as usize >= self.nodes.len() || !live[v.par as usize] {
            return Some(Flaw::DeadParent { slot: s, parent: v.par });
        }
        let u = self.nodes[v.par as usize];
        if u.tz >= v.tz {
            return Some(
                Flaw::Inversion { slot: s, level: v.tz, parent: v.par, above: u.tz },
            );
        }
        proof {
            assert(self.has(v.par as int));
        }
        let d = distance2(u.qx, u.qy, v.qx, v.qy);
        if !geo.near_with_slack((v.tz - 1) as u8, d) {
            return Some(
                Flaw::Covering {
                    slot: s,
                    parent: v.par,
                    level: v.tz - 1,
                    far: tenths(d),
                    limit: geo.slack_tenths((v.tz - 1) as u8),
                },
            );
        }
        None
    }

    /// Rules about each slot by itself.
    fn check_places(&self, geo: &Geometry, live: &Vec<bool>) -> (r: Option<Flaw>)
        requires
            self.shaped(),
            geo.wf(),
            geo.options() == self.opts,
            live@.len() == self.n(),
            forall|t: int| 0 <= t < self.n() ==> #[trigger] live@[t] == self.has(t),
            forall|t: int| #[trigger] self.has(t) ==> 0 <= t < self.n(),
        ensures
            match r {
                Some(f) => self.flawed(f),
                None => self.all_placed(),
            },
    {
        let n = self.nodes.len();
        let mut s: usize = 0;
        while s < n
            invariant
                self.shaped(),
                n == self.n(),
                live@.len() == n,
                forall|t: int| 0 <= t < n ==> #[trigger] live@[t] == self.has(t),
                s <= n,
                forall|t: int| #[trigger] self.has(t) ==> 0 <= t < n,
                self.inside_to(s as int),
            decreases n - s,
        {
            let v = self.nodes[s];
            proof {
                assert(live@[s as int] == self.has(s as int));
            }
            if live[s] && (v.qx < 0 || v.qx > 0x4000_0000 || v.qy < 0 || v.qy > 0x4000_0000) {
                return Some(Flaw::Outside { slot: s as Slot });
            }
            s = s + 1;
        }
        s = 0;
        while s < n
            invariant
                self.shaped(),
                geo.wf(),
                geo.options() == self.opts,
                n == self.n(),
                live@.len() == n,
                forall|t: int| 0 <= t < n ==> #[trigger] live@[t] == self.has(t),
                forall|t: int| #[trigger] self.has(t) ==> 0 <= t < n,
                self.inside_to(self.n()),
                s <= n,
                self.placed_to(s as int),
            decreases n - s,
        {
            proof {
                assert(live@[s as int] == self.has(s as int));
            }
            if live[s] {
                match self.check_place(geo, live, s as Slot) {
                    Some(f) => {
                        return Some(f);
                    },
                    None => {},
                }
            }
            s = s + 1;
        }
        proof {
            reveal(Dump::all_placed);
        }
        None
    }

    /// **Separation**, pair by pair.
    fn check_apart(&self, geo: &Geometry, live: &Vec<bool>) -> (r: Option<Flaw>)
        requires
            self.shaped(),
            geo.wf(),
            geo.options() == self.opts,
            live@.len() == self.n(),
            forall|t: int| 0 <= t < self.n() ==> #[trigger] live@[t] == self.has(t),
            forall|t: int| #[trigger] self.has(t) ==> 0 <= t < self.n(),
            self.all_placed(),
            self.listed(),
        ensures
            match r {
                Some(f) => self.flawed(f),
                None => self.all_apart(),
            },
    {
        let n = self.nodes.len();
        let mut a: usize = 0;
        while a < n
            invariant
                self.shaped(),
                geo.wf(),
                geo.options() == self.opts,
                n == self.n(),
                live@.len() == n,
                forall|t: int| 0 <= t < n ==> #[trigger] live@[t] == self.has(t),
                forall|t: int| #[trigger] self.has(t) ==> 0 <= t < n,
                self.all_placed(),
                self.listed(),
                a <= n,
                self.apart_to(a as int, 0),
            decreases n - a,
        {
            if live[a] && self.nodes[a].tz <= self.opts.max_zoom as i8 {
                let u = self.nodes[a];
                let mut b: usize = a + 1;
                while b < n
                    invariant
                        self.shaped(),
                        geo.wf(),
                        geo.options() == self.opts,
                        n == self.n(),
                        live@.len() == n,
                        forall|t: int| 0 <= t < n ==> #[trigger] live@[t] == self.has(t),
                        forall|t: int| #[trigger] self.has(t) ==> 0 <= t < n,
                        self.all_placed(),
                        self.listed(),
                        self.apart_to(a as int, 0),
                        a < n,
                        a < b <= n,
                        self.has(a as int),
                        u == self.nodes[a as int],
                        u.tz <= self.top(),
                        forall|d: int|
                            #![trigger self.has(d)]
                            self.has(d) && a < d < b ==> self.apart(a as int, d),
                    decreases n - b,
                {
                    if live[b] && self.nodes[b].tz <= self.opts.max_zoom as i8 {
                        let v = self.nodes[b];
                        proof {
                            assert(self.has(b as int));
                            self.lemma_placed(a as int);
                            self.lemma_placed(b as int);
                        }
                        let z: u8 = if u.tz > v.tz {
                            u.tz as u8
                        } else {
                            v.tz as u8
                        };
                        let d = distance2(u.qx, u.qy, v.qx, v.qy);
                        if geo.near(z, d) {
                            return Some(
                                Flaw::Separation {
                                    a: a as Slot,
                                    b: b as Slot,
                                    level: z as i8,
                                    of_a: u.tz,
                                    of_b: v.tz,
                                    far: tenths(d),
                                    limit: geo.radius_tenths(z),
                                },
                            );
                        }
                    }
                    b = b + 1;
                }
            }
            proof {
                assert forall|c: int, d: int|
                    #![trigger self.has(c), self.has(d)]
                    self.has(c) && self.has(d) && c < d && (c < a + 1 || (c == a + 1 && d
                        < 0)) implies self.apart(c, d) by {
                    if c == a {
                        assert(live@[a as int]);
                    }
                }
            }
            a = a + 1;
        }
        proof {
            assert forall|c: int, d: int|
                #![trigger self.has(c), self.has(d)]
                self.has(c) && self.has(d) && c != d implies self.apart(c, d) by {
                if c < d {
                    assert(self.apart(c, d));
                } else {
                    assert(self.apart(d, c));
                    assert(self.far(c, d) == self.far(d, c)) by (nonlinear_arith)
                        requires
                            self.far(c, d) == (self.nodes[c].qx - self.nodes[d].qx) * (
                            self.nodes[c].qx - self.nodes[d].qx) + (self.nodes[c].qy
                                - self.nodes[d].qy) * (self.nodes[c].qy - self.nodes[d].qy),
                            self.far(d, c) == (self.nodes[d].qx - self.nodes[c].qx) * (
                            self.nodes[d].qx - self.nodes[c].qx) + (self.nodes[d].qy
                                - self.nodes[c].qy) * (self.nodes[d].qy - self.nodes[c].qy),
                    ;
                }
            }
        }
        None
    }
}

impl Dump {
    /// Whatever the child list of `s` is, it starts with what was walked.
    proof fn lemma_walk(&self, s: int, q: Seq<int>, c: int, r: Seq<int>, m: int)
        requires
            self.shaped(),
            self.walked(s, q, c),
            self.list_of(s, r),
            0 <= m <= q.len(),
        ensures
            m <= r.len(),
            forall|i: int| 0 <= i < m ==> #[trigger] q[i] == r[i],
            m == q.len() ==> c == or_none(r, m),
        decreases m,
    {
        if m > 0 {
            self.lemma_walk(s, q, c, r, m - 1);
            assert(self.step(s, q, c, m - 1));
            self.lemma_slot_range(q[m - 1]);
            if m > 1 {
                assert(self.step(s, q, c, m - 2));
                assert(self.entry_of(s, r, m - 2));
                assert(q[m - 2] == r[m - 2]);
            }
            assert(q[m - 1] == or_none(r, m - 1));
            assert(self.entry_of(s, r, m - 1));
        }
    }

    /// Whether what a child list comes upon belongs there, and else why not.
    fn check_child(
        &self,
        live: &Vec<bool>,
        seen: &Vec<bool>,
        s: Slot,
        c: Slot,
        prev: Slot,
        last: i8,
        Ghost(w): Ghost<Seq<int>>,
    ) -> (r: Option<Flaw>)
        requires
            self.comes_upon(s as int, w, c as int),
            live@.len() == self.n(),
            forall|t: int| 0 <= t < self.n() ==> #[trigger] live@[t] == self.has(t),
            seen@.len() == self.n(),
            forall|t: int| 0 <= t < self.n() ==> #[trigger] seen@[t] == self.met(s as int, w, t),
            prev == or_none(w, w.len() - 1),
            w.len() > 0 ==> last == self.nodes[w[w.len() - 1]].tz,
            w.len() == 0 ==> last == -128,
        ensures
            match r {
                None => self.child_next(s as int, w, c as int) && self.behind_last(w, c as int)
                    && self.no_coarser(w, c as int) && self.has(c as int),
                Some(f) => self.flawed(f),
            },
    {
        let ghost (si, ci) = (s as int, c as int);
        if c as usize >= self.nodes.len() {
            let f = Flaw::DeadChild { slot: c, list: s };
            proof {
                assert(self.list_flaw(f, si, w, ci));
            }
            return Some(f);
        }
        let v = self.nodes[c as usize];
        proof {
            assert(seen@[ci] == self.met(si, w, ci));
            assert(live@[ci] == self.has(ci));
        }
        if seen[c as usize] {
            let f = Flaw::TwoLists { slot: c };
            proof {
                assert(self.list_flaw(f, si, w, ci));
            }
            return Some(f);
        }
        if v.par != s {
            let f = Flaw::WrongParent { slot: c, list: s, parent: v.par };
            proof {
                assert(self.list_flaw(f, si, w, ci));
            }
            return Some(f);
        }
        proof {
            assert(self.child_next(si, w, ci));
        }
        if v.psib != prev {
            let f = Flaw::PreviousSibling { slot: c };
            proof {
                assert(self.list_flaw(f, si, w, ci));
            }
            return Some(f);
        }
        proof {
            assert(self.behind_last(w, ci));
        }
        if v.tz < last {
            let f = Flaw::Unsorted { list: s };
            proof {
                assert(self.list_flaw(f, si, w, ci));
            }
            return Some(f);
        }
        if !live[c as usize] {
            let f = Flaw::DeadChild { slot: c, list: s };
            proof {
                assert(self.list_flaw(f, si, w, ci));
            }
            return Some(f);
        }
        None
    }

    /// Follow the child list of a slot.
    fn walk_list(&self, live: &Vec<bool>, s: Slot, seen: &mut Vec<bool>) -> (r: Option<Flaw>)
        requires
            self.shaped(),
            self.all_placed(),
            self.lists_to(s as int),
            live@.len() == self.n(),
            forall|t: int| 0 <= t < self.n() ==> #[trigger] live@[t] == self.has(t),
            self.has(s as int),
            s < self.n(),
            old(seen)@.len() == self.n(),
            forall|t: int|
                0 <= t < self.n() ==> #[trigger] old(seen)@[t] == self.earlier(s as int, t),
        ensures
            final(seen)@.len() == self.n(),
            match r {
                None => {
                    &&& self.has_list(s as int)
                    &&& forall|t: int|
                        0 <= t < self.n() ==> #[trigger] final(seen)@[t] == self.earlier(s + 1, t)
                },
                Some(f) => self.flawed(f),
            },
    {
        let n = self.nodes.len();
        let ghost si = s as int;
        let ghost mut w: Seq<int> = Seq::empty();
        let mut c = self.nodes[s as usize].kid;
        let mut prev: Slot = NONE;
        let mut last: i8 = -128;
        while c != NONE
            invariant
                self.shaped(),
                self.all_placed(),
                self.lists_to(si),
                n == self.n(),
                live@.len() == n,
                forall|t: int| 0 <= t < n ==> #[trigger] live@[t] == self.has(t),
                si == s,
                self.has(si),
                seen@.len() == n,
                self.walked(si, w, c as int),
                forall|t: int| 0 <= t < n ==> #[trigger] seen@[t] == self.met(si, w, t),
                prev == or_none(w, w.len() - 1),
                w.len() > 0 ==> last == self.nodes[w[w.len() - 1]].tz,
                w.len() == 0 ==> last == -128,
                w.len() <= n,
            decreases n - w.len(),
        {
            let ghost ci = c as int;
            let ghost v0 = w;
            proof {
                assert(self.comes_upon(si, w, ci));
            }
            match self.check_child(live, seen, s, c, prev, last, Ghost(w)) {
                Some(f) => {
                    return Some(f);
                },
                None => {},
            }
            let v = self.nodes[c as usize];
            let ghost was = seen@;
            seen[c as usize] = true;
            last = v.tz;
            prev = c;
            c = v.sib;
            proof {
                let x = v0.push(ci);
                assert(!v0.contains(ci));
                assert(x.no_duplicates()) by {
                    assert forall|i: int, j: int|
                        0 <= i < x.len() && 0 <= j < x.len() && i != j implies x[i] != x[j] by {
                        if i == v0.len() {
                            assert(v0.contains(v0[j]));
                        } else if j == v0.len() {
                            assert(v0.contains(v0[i]));
                        }
                    }
                }
                assert(self.walked(si, x, c as int)) by {
                    assert forall|i: int|
                        #![trigger x[i]]
                        0 <= i < x.len() implies self.step(si, x, c as int, i) by {
                        if i < v0.len() {
                            assert(x[i] == v0[i]);
                            assert(self.step(si, v0, ci, i));
                        }
                    }
                    assert forall|i: int, j: int| 0 <= i < j < x.len() implies self.nodes[#[trigger] x[i]].tz
                        <= self.nodes[#[trigger] x[j]].tz by {
                        if j < v0.len() {
                            assert(x[i] == v0[i] && x[j] == v0[j]);
                        } else {
                            assert(x[i] == v0[i]);
                            if i < v0.len() - 1 {
                                assert(self.nodes[v0[i]].tz <= self.nodes[v0[v0.len() - 1]].tz);
                            }
                        }
                    }
                }
                assert forall|t: int| 0 <= t < n implies #[trigger] seen@[t] == self.met(
                    si,
                    x,
                    t,
                ) by {
                    if t != ci {
                        assert(seen@[t] == was[t]);
                        if x.contains(t) {
                            let k = x.index_of(t);
                            assert(v0[k] == t);
                        }
                        if v0.contains(t) {
                            let k = v0.index_of(t);
                            assert(x[k] == t);
                        }
                    } else {
                        assert(x[v0.len() as int] == t);
                    }
                }
                assert forall|i: int| 0 <= i < x.len() implies 0 <= #[trigger] x[i] < n by {
                    assert(self.step(si, x, c as int, i));
                    self.lemma_slot_range(x[i]);
                }
                crate::sums::lemma_no_dup_bound(x, n as int);
                w = x;
            }
        }
        proof {
            assert(self.list_of(si, w)) by {
                assert forall|i: int| #![trigger w[i]] 0 <= i < w.len() implies self.entry_of(
                    si,
                    w,
                    i,
                ) by {
                    assert(self.step(si, w, NONE as int, i));
                }
            }
            assert forall|t: int| 0 <= t < n implies #[trigger] seen@[t] == self.earlier(
                si + 1,
                t,
            ) by {
                self.lemma_earlier(si, w, t);
            }
        }
        None
    }

    /// What is in the lists up to that of `s`.
    proof fn lemma_earlier(&self, s: int, q: Seq<int>, t: int)
        requires
            self.shaped(),
            self.has(s),
            self.list_of(s, q),
        ensures
            self.earlier(s + 1, t) == self.met(s, q, t),
    {
        if self.earlier(s + 1, t) {
            let u = choose|u: int| #[trigger] self.has(u) && u < s + 1 && self.lists_child(u, t);
            if u == s {
                let p = choose|p: Seq<int>| #[trigger] self.list_of(s, p) && p.contains(t);
                self.lemma_same_list(s, p, q);
            } else {
                assert(self.earlier(s, t));
            }
        }
        if q.contains(t) {
            assert(self.lists_child(s, t));
        }
        if self.earlier(s, t) {
            let u = choose|u: int| #[trigger] self.has(u) && u < s && self.lists_child(u, t);
            assert(self.has(u) && u < s + 1 && self.lists_child(u, t));
        }
    }

    /// What no list has come upon is in none.
    proof fn lemma_unlisted(&self, s: int)
        requires
            self.shaped(),
            !self.earlier(self.n(), s),
        ensures
            forall|t: int| #[trigger] self.has(t) ==> !self.lists_child(t, s),
    {
        assert forall|t: int| #[trigger] self.has(t) implies !self.lists_child(t, s) by {
            self.lemma_slot_range(t);
        }
    }

    /// What a list has come upon is in that of its parent.
    proof fn lemma_hung(&self, s: int)
        requires
            self.earlier(self.n(), s),
        ensures
            self.lists_child(self.nodes[s].par as int, s),
    {
        let t = choose|t: int| #[trigger] self.has(t) && t < self.n() && self.lists_child(t, s);
        let p = choose|p: Seq<int>| #[trigger] self.list_of(t, p) && p.contains(s);
        let k = p.index_of(s);
        assert(self.entry_of(t, p, k));
    }

    /// One slot more.
    proof fn lemma_next_list(&self, s: int)
        requires
            self.lists_to(s),
            self.has(s) ==> self.has_list(s),
        ensures
            self.lists_to(s + 1),
    {
        reveal(Dump::lists_to);
    }

    proof fn lemma_next_hung(&self, s: int)
        requires
            self.hung_to(s),
            self.has(s) && self.nodes[s].par != NONE ==> self.lists_child(
                self.nodes[s].par as int,
                s,
            ),
        ensures
            self.hung_to(s + 1),
    {
        reveal(Dump::hung_to);
    }

    /// No slot, and all.
    proof fn lemma_lists_ends(&self)
        requires
            self.shaped(),
        ensures
            self.lists_to(0),
            self.hung_to(0),
            self.lists_to(self.n()) && self.hung_to(self.n()) ==> self.listed(),
    {
        reveal(Dump::lists_to);
        reveal(Dump::hung_to);
        reveal(Dump::listed);
        assert forall|s: int| #[trigger] self.has(s) implies 0 <= s < self.n() by {
            self.lemma_slot_range(s);
        }
    }

    /// Child lists agree with parent pointers, and are sorted by level.
    fn check_lists(&self, live: &Vec<bool>) -> (r: Option<Flaw>)
        requires
            self.shaped(),
            live@.len() == self.n(),
            forall|t: int| 0 <= t < self.n() ==> #[trigger] live@[t] == self.has(t),
            forall|t: int| #[trigger] self.has(t) ==> 0 <= t < self.n(),
            self.all_placed(),
        ensures
            match r {
                None => self.listed(),
                Some(f) => self.flawed(f),
            },
    {
        let n = self.nodes.len();
        let mut seen: Vec<bool> = Vec::new();
        let mut i: usize = 0;
        while i < n
            invariant
                i <= n,
                seen@.len() == i,
                forall|s: int| 0 <= s < i ==> #[trigger] seen@[s] == false,
            decreases n - i,
        {
            seen.push(false);
            i = i + 1;
        }
        proof {
            self.lemma_lists_ends();
        }
        let mut s: usize = 0;
        while s < n
            invariant
                self.shaped(),
                self.all_placed(),
                n == self.n(),
                live@.len() == n,
                forall|t: int| 0 <= t < n ==> #[trigger] live@[t] == self.has(t),
                forall|t: int| #[trigger] self.has(t) ==> 0 <= t < n,
                s <= n,
                seen@.len() == n,
                self.lists_to(s as int),
                forall|t: int|
                    0 <= t < n ==> #[trigger] seen@[t] == self.earlier(s as int, t),
            decreases n - s,
        {
            proof {
                assert(live@[s as int] == self.has(s as int));
            }
            if live[s] {
                match self.walk_list(live, s as Slot, &mut seen) {
                    Some(f) => {
                        return Some(f);
                    },
                    None => {},
                }
            } else {
                proof {
                    assert forall|t: int| 0 <= t < n implies #[trigger] seen@[t] == self.earlier(
                        s + 1,
                        t,
                    ) by {
                        if self.earlier(s + 1, t) {
                            let u = choose|u: int| #[trigger]
                                self.has(u) && u < s + 1 && self.lists_child(u, t);
                            assert(u < s);
                            assert(self.earlier(s as int, t));
                        }
                        if self.earlier(s as int, t) {
                            let u = choose|u: int| #[trigger]
                                self.has(u) && u < s && self.lists_child(u, t);
                            assert(self.has(u) && u < s + 1 && self.lists_child(u, t));
                        }
                    }
                }
            }
            proof {
                self.lemma_next_list(s as int);
            }
            s = s + 1;
        }
        s = 0;
        while s < n
            invariant
                self.shaped(),
                n == self.n(),
                live@.len() == n,
                forall|t: int| 0 <= t < n ==> #[trigger] live@[t] == self.has(t),
                forall|t: int| #[trigger] self.has(t) ==> 0 <= t < n,
                self.all_placed(),
                s <= n,
                seen@.len() == n,
                self.lists_to(self.n()),
                forall|t: int|
                    0 <= t < n ==> #[trigger] seen@[t] == self.earlier(self.n(), t),
                self.hung_to(s as int),
            decreases n - s,
        {
            proof {
                assert(live@[s as int] == self.has(s as int));
                assert(seen@[s as int] == self.earlier(self.n(), s as int));
            }
            if live[s] && self.nodes[s].par != NONE {
                if !seen[s] {
                    let f = Flaw::NotListed { slot: s as Slot };
                    proof {
                        self.lemma_unlisted(s as int);
                        assert(self.flawed(f));
                    }
                    return Some(f);
                }
                proof {
                    self.lemma_hung(s as int);
                }
            }
            proof {
                self.lemma_next_hung(s as int);
            }
            s = s + 1;
        }
        proof {
            self.lemma_lists_ends();
        }
        None
    }

    /// Links make one list only.
    proof fn lemma_same_list(&self, s: int, p: Seq<int>, q: Seq<int>)
        requires
            self.shaped(),
            self.list_of(s, p),
            self.list_of(s, q),
        ensures
            p == q,
    {
        let m = if p.len() < q.len() {
            p.len() as int
        } else {
            q.len() as int
        };
        self.lemma_same_links(s, p, q, m);
        if p.len() < q.len() {
            assert(self.entry_of(s, q, m));
            self.lemma_slot_range(q[m]);
            if m > 0 {
                assert(self.entry_of(s, p, m - 1) && self.entry_of(s, q, m - 1));
            }
        } else if q.len() < p.len() {
            assert(self.entry_of(s, p, m));
            self.lemma_slot_range(p[m]);
            if m > 0 {
                assert(self.entry_of(s, p, m - 1) && self.entry_of(s, q, m - 1));
            }
        }
        assert(p =~= q);
    }
}

/// No entry is kept under cell `c`.
spec fn keeps_not(q: Seq<(u32, i32, i64, i64)>, c: int) -> bool {
    forall|i: int| 0 <= i < q.len() ==> (#[trigger] q[i]).0 != c
}

proof fn lemma_kept_not(q: Seq<(u32, i32, i64, i64)>, c: int)
    requires
        keeps_not(q, c),
    ensures
        kept_in(q, c) == (0int, 0int, 0int),
    decreases q.len(),
{
    if q.len() > 0 {
        assert(q[0].0 != c);
        let r = q.skip(1);
        assert forall|i: int| 0 <= i < r.len() implies (#[trigger] r[i]).0 != c by {
            assert(r[i] == q[i + 1]);
        }
        lemma_kept_not(r, c);
    }
}

/// What is kept under a cell.
fn find_kept(q: &Vec<(u32, i32, i64, i64)>, c: u32) -> (r: (i32, i64, i64))
    ensures
        kept_in(q@, c as int) == (r.0 as int, r.1 as int, r.2 as int),
{
    let mut i: usize = 0;
    proof {
        assert(q@.skip(0) =~= q@);
    }
    while i < q.len()
        invariant
            i <= q@.len(),
            kept_in(q@, c as int) == kept_in(q@.skip(i as int), c as int),
        decreases q@.len() - i,
    {
        let e = q[i];
        proof {
            let r = q@.skip(i as int);
            assert(r[0] == e);
            assert(r.skip(1) =~= q@.skip(i + 1));
        }
        if e.0 == c {
            return (e.1, e.2, e.3);
        }
        i = i + 1;
    }
    (0, 0, 0)
}

impl Dump {
    /// Whether the `i`-th cell of a slot stands before in its list.
    fn repeated(&self, s: usize, i: usize) -> (r: bool)
        requires
            s < self.cells.len(),
            i < self.cells[s as int].len(),
        ensures
            r == exists|j: int|
                0 <= j < i && #[trigger] self.cells[s as int]@[j] == self.cells[s as int]@[i as int],
    {
        let mut j: usize = 0;
        while j < i
            invariant
                s < self.cells.len(),
                i < self.cells[s as int].len(),
                j <= i,
                forall|k: int|
                    0 <= k < j ==> #[trigger] self.cells[s as int]@[k]
                        != self.cells[s as int]@[i as int],
            decreases i - j,
        {
            if self.cells[s][j] == self.cells[s][i] {
                return true;
            }
            j = j + 1;
        }
        false
    }

    /// What the points of the slots below `m` add to slot `s`.
    pub open spec fn part(&self, a: int, c: int, s: int, m: int) -> int {
        total(m, self.own_under(a, c, s))
    }

    /// A slot of the tree is under its ancestors, and its parent's are its own.
    proof fn lemma_climb(&self, s: int, p: int)
        requires
            self.shaped(),
            self.all_placed(),
            self.has(p),
        ensures
            self.under(s, p) <==> (p == s || (self.nodes[p].par != NONE && self.under(
                s,
                self.nodes[p].par as int,
            ))),
            self.nodes[p].par != NONE ==> self.has(self.nodes[p].par as int) && 0
                <= self.nodes[self.nodes[p].par as int].tz < self.nodes[p].tz,
    {
        self.lemma_placed(p);
        if self.nodes[p].par != NONE {
            self.lemma_placed(self.nodes[p].par as int);
        }
    }

    /// What is under a slot is of no coarser level.
    proof fn lemma_under_level(&self, s: int, p: int)
        requires
            self.under(s, p),
        ensures
            p == s || self.nodes[s].tz < self.nodes[p].tz,
        decreases self.nodes[p].tz as int,
    {
        if p != s {
            self.lemma_under_level(s, self.nodes[p].par as int);
        }
    }

    proof fn lemma_part_bounds(&self, a: int, c: int, s: int, m: int)
        requires
            self.shaped(),
            self.all_placed(),
            0 <= m <= self.n(),
        ensures
            0 <= self.part(a, c, s, m) <= m * 0x4000_0000,
            a == 0 ==> self.part(a, c, s, m) <= m,
        decreases m,
    {
        if m > 0 {
            self.lemma_part_bounds(a, c, s, m - 1);
            if self.has(m - 1) {
                self.lemma_placed(m - 1);
            }
        }
    }

    /// The points of the subtrees, counted and summed up by climbing from each.
    fn totals(&self, live: &Vec<bool>) -> (r: Vec<(i32, i64, i64)>)
        requires
            self.shaped(),
            self.all_placed(),
            live@.len() == self.n(),
            forall|t: int| 0 <= t < self.n() ==> #[trigger] live@[t] == self.has(t),
        ensures
            r@.len() == self.n(),
            forall|s: int|
                0 <= s < self.n() ==> (
                (#[trigger] r@[s]).0 as int, r@[s].1 as int, r@[s].2 as int) == (
                    self.mass(0, -1, s),
                    self.mass(1, -1, s),
                    self.mass(2, -1, s),
                ),
    {
        let n = self.nodes.len();
        let mut r: Vec<(i32, i64, i64)> = Vec::new();
        let mut i: usize = 0;
        while i < n
            invariant
                i <= n,
                r@.len() == i,
                forall|s: int| 0 <= s < i ==> #[trigger] r@[s] == (0i32, 0i64, 0i64),
            decreases n - i,
        {
            r.push((0, 0, 0));
            i = i + 1;
        }
        let mut p: usize = 0;
        while p < n
            invariant
                self.shaped(),
                self.all_placed(),
                n == self.n(),
                live@.len() == n,
                forall|t: int| 0 <= t < n ==> #[trigger] live@[t] == self.has(t),
                p <= n,
                r@.len() == n,
                forall|s: int|
                    0 <= s < n ==> (
                    (#[trigger] r@[s]).0 as int, r@[s].1 as int, r@[s].2 as int) == (
                        self.part(0, -1, s, p as int),
                        self.part(1, -1, s, p as int),
                        self.part(2, -1, s, p as int),
                    ),
            decreases n - p,
        {
            proof {
                assert(live@[p as int] == self.has(p as int));
            }
            if live[p] {
                let ghost pi = p as int;
                let ghost was = r@;
                let x = self.nodes[p].qx as i64;
                let y = self.nodes[p].qy as i64;
                let mut s: Slot = p as Slot;
                proof {
                    self.lemma_placed(pi);
                }
                let mut more = true;
                while more
                    invariant
                        self.shaped(),
                        self.all_placed(),
                        n == self.n(),
                        n <= 0x0800_0000,
                        pi == p,
                        p < n,
                        self.has(pi),
                        x == self.nodes[pi].qx,
                        y == self.nodes[pi].qy,
                        self.inside(pi),
                        r@.len() == n,
                        was.len() == n,
                        forall|t: int|
                            0 <= t < n ==> (
                            (#[trigger] was[t]).0 as int, was[t].1 as int, was[t].2 as int) == (
                                self.part(0, -1, t, pi),
                                self.part(1, -1, t, pi),
                                self.part(2, -1, t, pi),
                            ),
                        more ==> self.has(s as int) && s < n && self.under(s as int, pi),
                        forall|t: int|
                            0 <= t < n ==> (#[trigger] r@[t]) == (if self.under(t, pi) && !(more
                                && self.under(t, s as int)) {
                                (
                                    (was[t].0 + 1) as i32,
                                    (was[t].1 + x) as i64,
                                    (was[t].2 + y) as i64,
                                )
                            } else {
                                was[t]
                            }),
                    decreases
                            if more {
                                self.nodes[s as int].tz + 1
                            } else {
                                0
                            },
                {
                    let ghost si = s as int;
                    let ghost before = r@;
                    proof {
                        self.lemma_placed(si);
                        self.lemma_climb(si, si);
                        self.lemma_part_bounds(0, -1, si, pi);
                        self.lemma_part_bounds(1, -1, si, pi);
                        self.lemma_part_bounds(2, -1, si, pi);
                        assert(was[si].0 as int == self.part(0, -1, si, pi));
                        assert(r@[si] == was[si]);
                    }
                    let e = r[s as usize];
                    r.set(s as usize, (e.0 + 1, e.1 + x, e.2 + y));
                    let up = self.nodes[s as usize].par;
                    proof {
                        assert forall|t: int| 0 <= t < n implies (#[trigger] r@[t]) == (if self.under(
                            t,
                            pi,
                        ) && !(up != NONE && self.under(t, up as int)) {
                            (
                                (was[t].0 + 1) as i32,
                                (was[t].1 + x) as i64,
                                (was[t].2 + y) as i64,
                            )
                        } else {
                            was[t]
                        }) by {
                            self.lemma_climb(t, si);
                            if t == si {
                                if up != NONE && self.under(t, up as int) {
                                    self.lemma_under_level(t, up as int);
                                }
                            } else {
                                assert(r@[t] == before[t]);
                            }
                        }
                        if up != NONE {
                            self.lemma_slot_range(up as int);
                            self.lemma_above(si, pi);
                        }
                    }
                    if up == NONE {
                        more = false;
                    } else {
                        s = up;
                    }
                }
                proof {
                    assert forall|t: int| 0 <= t < n implies (
                    (#[trigger] r@[t]).0 as int, r@[t].1 as int, r@[t].2 as int) == (
                        self.part(0, -1, t, p + 1),
                        self.part(1, -1, t, p + 1),
                        self.part(2, -1, t, p + 1),
                    ) by {
                        self.lemma_part_bounds(0, -1, t, pi);
                        self.lemma_part_bounds(1, -1, t, pi);
                        self.lemma_part_bounds(2, -1, t, pi);
                        assert(was[t].0 as int == self.part(0, -1, t, pi));
                    }
                }
            } else {
                proof {
                    assert forall|t: int| 0 <= t < n implies (
                    (#[trigger] r@[t]).0 as int, r@[t].1 as int, r@[t].2 as int) == (
                        self.part(0, -1, t, p + 1),
                        self.part(1, -1, t, p + 1),
                        self.part(2, -1, t, p + 1),
                    ) by {}
                }
            }
            p = p + 1;
        }
        r
    }

    /// What is above a slot that is above another is above that too.
    proof fn lemma_above(&self, s: int, p: int)
        requires
            self.shaped(),
            self.all_placed(),
            self.has(p),
            self.under(s, p),
            self.nodes[s].par != NONE,
        ensures
            self.under(self.nodes[s].par as int, p),
        decreases self.nodes[p].tz as int,
    {
        self.lemma_climb(s, p);
        self.lemma_climb(self.nodes[s].par as int, p);
        if p == s {
        } else {
            self.lemma_above(s, self.nodes[p].par as int);
        }
    }

    /// Add the point of slot `p` to cell `c` of every slot that it is under.
    fn add_up(&self, rows: &mut Vec<Vec<(u32, i32, i64, i64)>>, p: Slot, c: u32)
        requires
            self.shaped(),
            self.all_placed(),
            self.has(p as int),
            old(rows)@.len() == self.n(),
            forall|t: int|
                0 <= t < self.n() ==> small(kept_in((#[trigger] old(rows)@[t])@, c as int)),
        ensures
            final(rows)@.len() == self.n(),
            forall|t: int, d: int|
                #![trigger kept_in(final(rows)@[t]@, d)]
                0 <= t < self.n() ==> kept_in(final(rows)@[t]@, d) == grown_by(
                    kept_in(old(rows)@[t]@, d),
                    self.under(t, p as int) && d == c,
                    self.nodes[p as int].qx as int,
                    self.nodes[p as int].qy as int,
                ),
    {
        let n = self.nodes.len();
        let ghost pi = p as int;
        let ghost was = rows@;
        proof {
            self.lemma_placed(pi);
            self.lemma_slot_range(pi);
        }
        let x = self.nodes[p as usize].qx as i64;
        let y = self.nodes[p as usize].qy as i64;
        let mut s: Slot = p;
        let mut more = true;
        while more
            invariant
                self.shaped(),
                self.all_placed(),
                n == self.n(),
                pi == p,
                self.has(pi),
                x == self.nodes[pi].qx,
                y == self.nodes[pi].qy,
                0 <= x <= 0x4000_0000,
                0 <= y <= 0x4000_0000,
                rows@.len() == n,
                was.len() == n,
                forall|t: int| 0 <= t < n ==> small(kept_in((#[trigger] was[t])@, c as int)),
                more ==> self.has(s as int) && s < n && self.under(s as int, pi),
                forall|t: int, d: int|
                    #![trigger kept_in(rows@[t]@, d)]
                    0 <= t < n ==> kept_in(rows@[t]@, d) == grown_by(
                        kept_in(was[t]@, d),
                        self.under(t, pi) && !(more && self.under(t, s as int)) && d == c,
                        x as int,
                        y as int,
                    ),
            decreases
                    if more {
                        self.nodes[s as int].tz + 1
                    } else {
                        0
                    },
        {
            let ghost si = s as int;
            let ghost before = rows@;
            proof {
                self.lemma_placed(si);
                self.lemma_climb(si, si);
                assert(kept_in(rows@[si]@, c as int) == kept_in(was[si]@, c as int));
            }
            let mut row: Vec<(u32, i32, i64, i64)> = Vec::new();
            std::mem::swap(&mut rows[s as usize], &mut row);
            bump_row(&mut row, c, x, y);
            rows.set(s as usize, row);
            let up = self.nodes[s as usize].par;
            proof {
                assert forall|t: int, d: int|
                    #![trigger kept_in(rows@[t]@, d)]
                    0 <= t < n implies kept_in(rows@[t]@, d) == grown_by(
                    kept_in(was[t]@, d),
                    self.under(t, pi) && !(up != NONE && self.under(t, up as int)) && d == c,
                    x as int,
                    y as int,
                ) by {
                    self.lemma_climb(t, si);
                    assert(kept_in(before[t]@, d) == grown_by(
                        kept_in(was[t]@, d),
                        self.under(t, pi) && !self.under(t, si) && d == c,
                        x as int,
                        y as int,
                    ));
                    if t == si {
                        if up != NONE && self.under(t, up as int) {
                            self.lemma_under_level(t, up as int);
                        }
                    } else {
                        assert(rows@[t] == before[t]);
                    }
                }
                if up != NONE {
                    self.lemma_slot_range(up as int);
                    self.lemma_above(si, pi);
                }
            }
            if up == NONE {
                more = false;
            } else {
                s = up;
            }
        }
    }

    /// `rows` holds, per slot and cell, what the points of the slots below `p` and, of slot `p`,
    /// those of its first `i` cells add.
    spec fn gathered(&self, rows: Seq<Vec<(u32, i32, i64, i64)>>, p: int, i: int) -> bool {
        &&& rows.len() == self.n()
        &&& forall|t: int, d: int|
            #![trigger kept_in(rows[t]@, d)]
            0 <= t < self.n() && d >= 0 ==> kept_in(rows[t]@, d) == grown_by(
                (self.part(0, d, t, p), self.part(1, d, t, p), self.part(2, d, t, p)),
                p < self.n() && self.has(p) && self.under(t, p) && holds(
                    self.cells[p]@.take(i),
                    d,
                ),
                self.nodes[p].qx as int,
                self.nodes[p].qy as int,
            )
    }

    /// Gather one cell more.
    proof fn lemma_gather(
        &self,
        was: Seq<Vec<(u32, i32, i64, i64)>>,
        rows: Seq<Vec<(u32, i32, i64, i64)>>,
        p: int,
        i: int,
        again: bool,
    )
        requires
            self.shaped(),
            self.has(p),
            0 <= p < self.n(),
            0 <= i < self.cells[p]@.len(),
            self.gathered(was, p, i),
            again == holds(self.cells[p]@.take(i), self.cells[p]@[i] as int),
            again ==> rows == was,
            !again ==> rows.len() == self.n() && forall|t: int, d: int|
                #![trigger kept_in(rows[t]@, d)]
                0 <= t < self.n() ==> kept_in(rows[t]@, d) == grown_by(
                    kept_in(was[t]@, d),
                    self.under(t, p) && d == self.cells[p]@[i],
                    self.nodes[p].qx as int,
                    self.nodes[p].qy as int,
                ),
        ensures
            self.gathered(rows, p, i + 1),
    {
        let q = self.cells[p]@;
        assert forall|d: int| #[trigger] holds(q.take(i + 1), d) == (holds(q.take(i), d) || d
            == q[i]) by {
            if holds(q.take(i + 1), d) {
                let k = choose|k: int| 0 <= k < q.take(i + 1).len() && #[trigger] q.take(i + 1)[k] == d;
                if k < i {
                    assert(q.take(i)[k] == d);
                }
            }
            if holds(q.take(i), d) {
                let k = choose|k: int| 0 <= k < q.take(i).len() && #[trigger] q.take(i)[k] == d;
                assert(q.take(i + 1)[k] == d);
            }
            if d == q[i] {
                assert(q.take(i + 1)[i] == d);
            }
        }
        assert forall|t: int, d: int|
            #![trigger kept_in(rows[t]@, d)]
            0 <= t < self.n() && d >= 0 implies kept_in(rows[t]@, d) == grown_by(
            (self.part(0, d, t, p), self.part(1, d, t, p), self.part(2, d, t, p)),
            p < self.n() && self.has(p) && self.under(t, p) && holds(q.take(i + 1), d),
            self.nodes[p].qx as int,
            self.nodes[p].qy as int,
        ) by {
            assert(holds(q.take(i + 1), d) == (holds(q.take(i), d) || d == q[i]));
            assert(kept_in(was[t]@, d) == kept_in(was[t]@, d));
        }
    }

    /// On to the next slot.
    proof fn lemma_gathered(&self, rows: Seq<Vec<(u32, i32, i64, i64)>>, p: int)
        requires
            self.shaped(),
            0 <= p < self.n(),
            self.gathered(rows, p, self.cells[p]@.len() as int) || (!self.has(p) && self.gathered(
                rows,
                p,
                0,
            )),
        ensures
            self.gathered(rows, p + 1, 0),
    {
        let q = self.cells[p]@;
        assert(q.take(q.len() as int) =~= q);
        assert forall|t: int, d: int|
            #![trigger kept_in(rows[t]@, d)]
            0 <= t < self.n() && d >= 0 implies kept_in(rows[t]@, d) == (
            self.part(0, d, t, p + 1),
            self.part(1, d, t, p + 1),
            self.part(2, d, t, p + 1),
        ) by {
            let f = self.own_under(0, d, t);
            assert(self.part(0, d, t, p + 1) == self.part(0, d, t, p) + self.own_under(0, d, t)(p));
            assert(self.part(1, d, t, p + 1) == self.part(1, d, t, p) + self.own_under(1, d, t)(p));
            assert(self.part(2, d, t, p + 1) == self.part(2, d, t, p) + self.own_under(2, d, t)(p));
        }
        if p + 1 < self.n() {
            let r = self.cells[p + 1]@.take(0);
            assert forall|d: int| !#[trigger] holds(r, d) by {}
        }
    }

    /// The points of the subtrees, per filter cell.
    fn cell_totals(&self, live: &Vec<bool>) -> (rows: Vec<Vec<(u32, i32, i64, i64)>>)
        requires
            self.shaped(),
            self.all_placed(),
            live@.len() == self.n(),
            forall|t: int| 0 <= t < self.n() ==> #[trigger] live@[t] == self.has(t),
        ensures
            rows@.len() == self.n(),
            forall|t: int, d: int|
                #![trigger kept_in(rows@[t]@, d)]
                0 <= t < self.n() && d >= 0 ==> kept_in(rows@[t]@, d) == (
                    self.mass(0, d, t),
                    self.mass(1, d, t),
                    self.mass(2, d, t),
                ),
    {
        let n = self.nodes.len();
        let mut rows: Vec<Vec<(u32, i32, i64, i64)>> = Vec::new();
        let mut i: usize = 0;
        while i < n
            invariant
                i <= n,
                rows@.len() == i,
                forall|t: int| 0 <= t < i ==> (#[trigger] rows@[t])@.len() == 0,
            decreases n - i,
        {
            rows.push(Vec::new());
            i = i + 1;
        }
        proof {
            assert(self.gathered(rows@, 0, 0)) by {
                if 0 < self.n() {
                    let r = self.cells[0]@.take(0);
                    assert forall|d: int| !#[trigger] holds(r, d) by {}
                }
            }
        }
        let mut p: usize = 0;
        while p < n
            invariant
                self.shaped(),
                self.all_placed(),
                n == self.n(),
                live@.len() == n,
                forall|t: int| 0 <= t < n ==> #[trigger] live@[t] == self.has(t),
                p <= n,
                self.gathered(rows@, p as int, 0),
            decreases n - p,
        {
            proof {
                assert(live@[p as int] == self.has(p as int));
            }
            if live[p] {
                let ghost pi = p as int;
                let mut i: usize = 0;
                while i < self.cells[p].len()
                    invariant
                        self.shaped(),
                        self.all_placed(),
                        n == self.n(),
                        p < n,
                        pi == p,
                        self.has(pi),
                        i <= self.cells[pi]@.len(),
                        self.gathered(rows@, pi, i as int),
                    decreases self.cells[pi]@.len() - i,
                {
                    let ghost was = rows@;
                    let c = self.cells[p][i];
                    let again = self.repeated(p, i);
                    proof {
                        let q = self.cells[pi]@;
                        if again {
                            let j = choose|j: int| 0 <= j < i && #[trigger] q[j] == q[i as int];
                            assert(q.take(i as int)[j] == c);
                        }
                        if holds(q.take(i as int), c as int) {
                            let j = choose|j: int|
                                0 <= j < q.take(i as int).len() && #[trigger] q.take(i as int)[j] == c;
                            assert(q[j] == q[i as int]);
                        }
                    }
                    if !again {
                        proof {
                            assert forall|t: int| 0 <= t < self.n() implies small(
                                kept_in((#[trigger] rows@[t])@, c as int),
                            ) by {
                                self.lemma_part_bounds(0, c as int, t, pi);
                                self.lemma_part_bounds(1, c as int, t, pi);
                                self.lemma_part_bounds(2, c as int, t, pi);
                                assert(kept_in(rows@[t]@, c as int) == kept_in(
                                    rows@[t]@,
                                    c as int,
                                ));
                            }
                        }
                        self.add_up(&mut rows, p as Slot, c);
                    }
                    proof {
                        self.lemma_gather(was, rows@, pi, i as int, again);
                    }
                    i = i + 1;
                }
            }
            proof {
                self.lemma_gathered(rows@, p as int);
            }
            p = p + 1;
        }
        rows
    }

    /// Totals equal brute-force subtree sums, slot by slot.
    fn check_totals(&self, live: &Vec<bool>) -> (r: Option<Flaw>)
        requires
            self.grown(),
            live@.len() == self.n(),
            forall|t: int| 0 <= t < self.n() ==> #[trigger] live@[t] == self.has(t),
            forall|t: int| #[trigger] self.has(t) ==> 0 <= t < self.n(),
        ensures
            match r {
                None => self.weighed_to(self.n()),
                Some(f) => self.flawed(f),
            },
    {
        let n = self.nodes.len();
        let want = self.totals(live);
        let mut s: usize = 0;
        while s < n
            invariant
                self.grown(),
                n == self.n(),
                live@.len() == n,
                forall|t: int| 0 <= t < n ==> #[trigger] live@[t] == self.has(t),
                forall|t: int| #[trigger] self.has(t) ==> 0 <= t < n,
                want@.len() == n,
                forall|t: int|
                    0 <= t < n ==> (
                    (#[trigger] want@[t]).0 as int, want@[t].1 as int, want@[t].2 as int) == (
                        self.mass(0, -1, t),
                        self.mass(1, -1, t),
                        self.mass(2, -1, t),
                    ),
                s <= n,
                self.weighed_to(s as int),
            decreases n - s,
        {
            proof {
                assert(live@[s as int] == self.has(s as int));
            }
            if live[s] {
                let v = self.nodes[s];
                let t = want[s];
                if v.cnt != t.0 {
                    return Some(Flaw::Count { slot: s as Slot, found: v.cnt, want: t.0 });
                }
                if v.sx != t.1 {
                    return Some(
                        Flaw::SumX { slot: s as Slot, drift: v.sx as i128 - t.1 as i128 },
                    );
                }
                if v.sy != t.2 {
                    return Some(
                        Flaw::SumY { slot: s as Slot, drift: v.sy as i128 - t.2 as i128 },
                    );
                }
            }
            s = s + 1;
        }
        None
    }

    /// Filter aggregates equal brute-force subtree sums, slot by slot.
    fn check_cells(&self, live: &Vec<bool>) -> (r: Option<Flaw>)
        requires
            self.totalled(),
            self.opts.cells_in_force() > 0,
            live@.len() == self.n(),
            forall|t: int| 0 <= t < self.n() ==> #[trigger] live@[t] == self.has(t),
            forall|t: int| #[trigger] self.has(t) ==> 0 <= t < self.n(),
        ensures
            match r {
                None => self.cells_weighed_to(self.n()),
                Some(f) => self.flawed(f),
            },
    {
        let n = self.nodes.len();
        let want = self.cell_totals(live);
        let mut s: usize = 0;
        while s < n
            invariant
                self.totalled(),
                self.opts.cells_in_force() > 0,
                n == self.n(),
                live@.len() == n,
                forall|t: int| 0 <= t < n ==> #[trigger] live@[t] == self.has(t),
                forall|t: int| #[trigger] self.has(t) ==> 0 <= t < n,
                want@.len() == n,
                forall|t: int, d: int|
                    #![trigger kept_in(want@[t]@, d)]
                    0 <= t < n && d >= 0 ==> kept_in(want@[t]@, d) == (
                        self.mass(0, d, t),
                        self.mass(1, d, t),
                        self.mass(2, d, t),
                    ),
                s <= n,
                self.cells_weighed_to(s as int),
            decreases n - s,
        {
            proof {
                assert(live@[s as int] == self.has(s as int));
            }
            if live[s] {
                let same = same_rows(&self.sums[s], &want[s]);
                proof {
                    let si = s as int;
                    if same {
                        assert forall|c: int| c >= 0 implies #[trigger] self.cell_weighed(si, c) by {
                            assert(kept_in(self.sums[si]@, c) == kept_in(want@[si]@, c));
                        }
                    } else {
                        let c = choose|c: int|
                            c >= 0 && #[trigger] kept_in(self.sums[si]@, c) != kept_in(
                                want@[si]@,
                                c,
                            );
                        assert(kept_in(want@[si]@, c) == (
                            self.mass(0, c, si),
                            self.mass(1, c, si),
                            self.mass(2, c, si),
                        ));
                        assert(!self.cell_weighed(si, c));
                    }
                }
                if !same {
                    let v = self.nodes[s];
                    return Some(
                        Flaw::Cells {
                            slot: s as Slot,
                            sums: add_rows(&self.sums[s]),
                            totals: Numbers {
                                count: v.cnt as i128,
                                sx: v.sx as i128,
                                sy: v.sy as i128,
                            },
                        },
                    );
                }
            }
            s = s + 1;
        }
        None
    }
}

/// Small enough that one more point fits.
spec fn small(m: (int, int, int)) -> bool {
    &&& 0 <= m.0 <= 0x0800_0000
    &&& 0 <= m.1 <= 0x0800_0000 * 0x4000_0000
    &&& 0 <= m.2 <= 0x0800_0000 * 0x4000_0000
}

/// With one point more, where `on`.
spec fn grown_by(m: (int, int, int), on: bool, x: int, y: int) -> (int, int, int) {
    if on {
        (m.0 + 1, m.1 + x, m.2 + y)
    } else {
        m
    }
}

proof fn lemma_kept_set(
    q: Seq<(u32, i32, i64, i64)>,
    i: int,
    e: (u32, i32, i64, i64),
    d: int,
)
    requires
        0 <= i < q.len(),
        q[i].0 == e.0,
        forall|j: int| 0 <= j < i ==> (#[trigger] q[j]).0 != e.0,
    ensures
        kept_in(q.update(i, e), d) == (if d == e.0 {
            (e.1 as int, e.2 as int, e.3 as int)
        } else {
            kept_in(q, d)
        }),
        d == e.0 ==> kept_in(q, d) == (q[i].1 as int, q[i].2 as int, q[i].3 as int),
    decreases q.len(),
{
    let r = q.skip(1);
    let u = q.update(i, e);
    if i == 0 {
        assert(u.skip(1) =~= r);
    } else {
        assert(u.skip(1) =~= r.update(i - 1, e));
        assert(q[0].0 != e.0);
        assert forall|j: int| 0 <= j < i - 1 implies (#[trigger] r[j]).0 != e.0 by {
            assert(r[j] == q[j + 1]);
        }
        lemma_kept_set(r, i - 1, e, d);
    }
}

proof fn lemma_kept_push(q: Seq<(u32, i32, i64, i64)>, e: (u32, i32, i64, i64), d: int)
    requires
        keeps_not(q, e.0 as int),
    ensures
        kept_in(q.push(e), d) == (if d == e.0 {
            (e.1 as int, e.2 as int, e.3 as int)
        } else {
            kept_in(q, d)
        }),
    decreases q.len(),
{
    let u = q.push(e);
    if q.len() == 0 {
        assert(u.skip(1) =~= q);
    } else {
        let r = q.skip(1);
        assert(u.skip(1) =~= r.push(e));
        assert(q[0].0 != e.0);
        assert forall|j: int| 0 <= j < r.len() implies (#[trigger] r[j]).0 != e.0 by {
            assert(r[j] == q[j + 1]);
        }
        lemma_kept_push(r, e, d);
    }
}

/// Add a point to a cell of a row.
fn bump_row(row: &mut Vec<(u32, i32, i64, i64)>, c: u32, x: i64, y: i64)
    requires
        small(kept_in(old(row)@, c as int)),
        0 <= x <= 0x4000_0000,
        0 <= y <= 0x4000_0000,
    ensures
        forall|d: int|
            #![trigger kept_in(final(row)@, d)]
            kept_in(final(row)@, d) == grown_by(
                kept_in(old(row)@, d),
                d == c,
                x as int,
                y as int,
            ),
{
    let ghost was = row@;
    let mut i: usize = 0;
    while i < row.len()
        invariant
            row@ == was,
            was == old(row)@,
            i <= was.len(),
            small(kept_in(was, c as int)),
            0 <= x <= 0x4000_0000,
            0 <= y <= 0x4000_0000,
            forall|j: int| 0 <= j < i ==> (#[trigger] was[j]).0 != c,
        decreases was.len() - i,
    {
        let e = row[i];
        if e.0 == c {
            proof {
                lemma_kept_set(was, i as int, e, c as int);
            }
            let up = (c, e.1 + 1, e.2 + x, e.3 + y);
            row.set(i, up);
            proof {
                assert(row@ =~= was.update(i as int, up));
                assert forall|d: int| #[trigger] kept_in(row@, d) == grown_by(
                    kept_in(was, d),
                    d == c,
                    x as int,
                    y as int,
                ) by {
                    lemma_kept_set(was, i as int, up, d);
                }
            }
            return ;
        }
        i = i + 1;
    }
    proof {
        lemma_kept_not(was, c as int);
    }
    let e = (c, 1i32, x, y);
    row.push(e);
    proof {
        assert forall|d: int| #[trigger] kept_in(row@, d) == grown_by(
            kept_in(was, d),
            d == c,
            x as int,
            y as int,
        ) by {
            lemma_kept_push(was, e, d);
        }
    }
}

/// Whether two rows say the same of every cell.
fn same_rows(a: &Vec<(u32, i32, i64, i64)>, b: &Vec<(u32, i32, i64, i64)>) -> (r: bool)
    ensures
        r ==> forall|c: int| #[trigger] kept_in(a@, c) == kept_in(b@, c),
        !r ==> exists|c: int| c >= 0 && #[trigger] kept_in(a@, c) != kept_in(b@, c),
{
    if !within_row(a, b) || !within_row(b, a) {
        return false;
    }
    proof {
        assert forall|c: int| #[trigger] kept_in(a@, c) == kept_in(b@, c) by {
            if !keeps_not(a@, c) {
                let i = choose|i: int| 0 <= i < a@.len() && (#[trigger] a@[i]).0 == c;
                assert(kept_in(a@, a@[i].0 as int) == kept_in(b@, a@[i].0 as int));
            } else if !keeps_not(b@, c) {
                let i = choose|i: int| 0 <= i < b@.len() && (#[trigger] b@[i]).0 == c;
                assert(kept_in(b@, b@[i].0 as int) == kept_in(a@, b@[i].0 as int));
            } else {
                lemma_kept_not(a@, c);
                lemma_kept_not(b@, c);
            }
        }
    }
    true
}

/// Whether another row says the same of the cells of a row.
fn within_row(a: &Vec<(u32, i32, i64, i64)>, b: &Vec<(u32, i32, i64, i64)>) -> (r: bool)
    ensures
        r ==> forall|i: int|
            0 <= i < a@.len() ==> kept_in(a@, (#[trigger] a@[i]).0 as int) == kept_in(
                b@,
                a@[i].0 as int,
            ),
        !r ==> exists|c: int| c >= 0 && #[trigger] kept_in(a@, c) != kept_in(b@, c),
{
    let mut i: usize = 0;
    while i < a.len()
        invariant
            i <= a@.len(),
            forall|j: int|
                0 <= j < i ==> kept_in(a@, (#[trigger] a@[j]).0 as int) == kept_in(
                    b@,
                    a@[j].0 as int,
                ),
        decreases a@.len() - i,
    {
        let c = a[i].0;
        let (n, x, y) = find_kept(a, c);
        let (m, u, v) = find_kept(b, c);
        if n != m || x != u || y != v {
            proof {
                assert(kept_in(a@, c as int) != kept_in(b@, c as int));
            }
            return false;
        }
        i = i + 1;
    }
    true
}

/// The position of slot `s` at level `z` in a flat table.
spec fn spot(s: int, z: int) -> int {
    s * 21 + z
}

impl Dump {
    /// Up to there, listings are right and single, and noted.
    spec fn noted(&self, seen: Seq<bool>, i: int, j: int) -> bool {
        &&& self.listings_to(i, j)
        &&& seen.len() == self.n() * 21
        &&& forall|s: int, z: int|
            0 <= s < self.n() && 0 <= z <= 20 ==> #[trigger] seen[spot(s, z)] == self.listed_before(
                i,
                j,
                s,
                z,
            )
    }

    /// Note one more listing.
    proof fn lemma_noted(&self, seen: Seq<bool>, i: int, j: int, s: int, z: int)
        requires
            self.noted(seen, i, j),
            self.lists_at(i, j, s, z),
            0 <= s < self.n(),
            0 <= z <= 20,
            !seen[spot(s, z)],
            self.listing_ok(i, j),
        ensures
            self.noted(seen.update(spot(s, z), true), i, j + 1),
    {
        let now = seen.update(spot(s, z), true);
        assert forall|t: int, v: int| 0 <= t < self.n() && 0 <= v <= 20 implies #[trigger] now[spot(
            t,
            v,
        )] == self.listed_before(i, j + 1, t, v) by {
            assert(seen[spot(t, v)] == self.listed_before(i, j, t, v));
            if self.listed_before(i, j + 1, t, v) {
                let (k, l) = choose|k: int, l: int| #[trigger]
                    self.lists_at(k, l, t, v) && (k < i || (k == i && l < j + 1));
                if k == i && l == j {
                    assert(t == s && v == z);
                } else {
                    assert(self.listed_before(i, j, t, v));
                }
            }
            if self.listed_before(i, j, t, v) {
                let (k, l) = choose|k: int, l: int| #[trigger]
                    self.lists_at(k, l, t, v) && (k < i || (k == i && l < j));
                assert(self.lists_at(k, l, t, v));
            }
        }
        assert forall|k: int, l: int, c: int, d: int, t: int, v: int|
            #![trigger self.lists_at(k, l, t, v), self.lists_at(c, d, t, v)]
            self.lists_at(k, l, t, v) && self.lists_at(c, d, t, v) && (k < i || (k == i && l < j
                + 1)) && (c < i || (c == i && d < j + 1)) implies k == c && l == d by {
            if (k == i && l == j) != (c == i && d == j) {
                assert(t == s && v == z);
                assert(self.listed_before(i, j, s, z));
            }
        }
    }

    /// Go on to the next bucket.
    proof fn lemma_noted_next(&self, seen: Seq<bool>, i: int)
        requires
            self.noted(seen, i, self.listings[i].1.len() as int),
            0 <= i < self.listings.len(),
            self.bucket_ok(i),
        ensures
            self.noted(seen, i + 1, 0),
    {
        let m = self.listings[i].1.len() as int;
        assert forall|t: int, v: int| 0 <= t < self.n() && 0 <= v <= 20 implies #[trigger] seen[spot(
            t,
            v,
        )] == self.listed_before(i + 1, 0, t, v) by {
            assert(seen[spot(t, v)] == self.listed_before(i, m, t, v));
            if self.listed_before(i + 1, 0, t, v) {
                let (k, l) = choose|k: int, l: int| #[trigger]
                    self.lists_at(k, l, t, v) && (k < i + 1 || (k == i + 1 && l < 0));
                assert(self.lists_at(k, l, t, v));
            }
            if self.listed_before(i, m, t, v) {
                let (k, l) = choose|k: int, l: int| #[trigger]
                    self.lists_at(k, l, t, v) && (k < i || (k == i && l < m));
                assert(self.lists_at(k, l, t, v));
            }
        }
        assert forall|k: int, l: int, c: int, d: int, t: int, v: int|
            #![trigger self.lists_at(k, l, t, v), self.lists_at(c, d, t, v)]
            self.lists_at(k, l, t, v) && self.lists_at(c, d, t, v) && (k < i + 1 || (k == i + 1 && l
                < 0)) && (c < i + 1 || (c == i + 1 && d < 0)) implies k == c && l == d by {}
    }

    /// What is noted is listed.
    proof fn lemma_given(&self, seen: Seq<bool>, s: int, z: int)
        requires
            self.noted(seen, self.listings.len() as int, 0),
            0 <= s < self.n(),
            0 <= z <= 20,
        ensures
            seen[spot(s, z)] == self.gives(s, z),
    {
        let m = self.listings.len() as int;
        assert(seen[spot(s, z)] == self.listed_before(m, 0, s, z));
        if self.gives(s, z) {
            let (k, l) = choose|i: int, j: int| self.lists_at(i, j, s, z);
            assert(self.lists_at(k, l, s, z));
        }
        if self.listed_before(m, 0, s, z) {
            let (k, l) = choose|k: int, l: int| #[trigger]
                self.lists_at(k, l, s, z) && (k < m || (k == m && l < 0));
            assert(self.lists_at(k, l, s, z));
        }
    }

    /// One listing: its level, its cell.
    fn check_listing(
        &self,
        geo: &Geometry,
        live: &Vec<bool>,
        i: usize,
        j: usize,
    ) -> (r: Option<Flaw>)
        requires
            self.shaped(),
            self.filled(),
            self.listings_to(i as int, j as int),
            geo.wf(),
            geo.options() == self.opts,
            live@.len() == self.n(),
            forall|t: int| 0 <= t < self.n() ==> #[trigger] live@[t] == self.has(t),
            forall|t: int| #[trigger] self.has(t) ==> 0 <= t < self.n(),
            i < self.listings.len(),
            j < self.listings[i as int].1.len(),
        ensures
            match r {
                None => self.listing_ok(i as int, j as int) && self.listings[i as int].1[j as int]
                    < self.n(),
                Some(f) => self.flawed(f),
            },
    {
        let k = self.listings[i].0;
        let z = level_of(k);
        let s = self.listings[i].1[j];
        proof {
            assert(self.lists_at(i as int, j as int, s as int, z as int));
        }
        if s as usize >= self.nodes.len() || !live[s as usize] {
            let f = Flaw::DeadListing { slot: s, level: z };
            proof {
                assert(!self.has(s as int));
                assert(self.listing_flaw(f, i as int, j as int));
            }
            return Some(f);
        }
        proof {
            self.lemma_placed(s as int);
        }
        let v = self.nodes[s as usize];
        if v.tz as i64 > z as i64 {
            let f = Flaw::CoarseListing { slot: s, own: v.tz, level: z };
            proof {
                assert(self.listing_flaw(f, i as int, j as int));
            }
            return Some(f);
        }
        if z > self.opts.max_zoom as u64 {
            let f = Flaw::WrongCell { slot: s, level: z };
            proof {
                assert(self.listing_flaw(f, i as int, j as int));
            }
            return Some(f);
        }
        let cx = geo.cell_at(v.qx, z as u8);
        let cy = geo.cell_at(v.qy, z as u8);
        proof {
            lemma_grid_key(self.opts, v.qx as int, v.qy as int, z as int);
        }
        if pack(z as u8, cx, cy) != k {
            let f = Flaw::WrongCell { slot: s, level: z };
            proof {
                assert(self.listing_flaw(f, i as int, j as int));
            }
            return Some(f);
        }
        None
    }

    /// The grids hold exactly the centers.
    fn check_grid(&self, geo: &Geometry, live: &Vec<bool>) -> (r: Result<usize, Flaw>)
        requires
            self.shaped(),
            self.filled(),
            geo.wf(),
            geo.options() == self.opts,
            live@.len() == self.n(),
            forall|t: int| 0 <= t < self.n() ==> #[trigger] live@[t] == self.has(t),
            forall|t: int| #[trigger] self.has(t) ==> 0 <= t < self.n(),
        ensures
            match r {
                Ok(m) => self.gridded() && m == total(self.n(), |s: int| self.levels(s)),
                Err(f) => self.flawed(f),
            },
    {
        let n = self.nodes.len();
        let mut seen: Vec<bool> = Vec::new();
        let mut i: usize = 0;
        while i < n * 21
            invariant
                n <= 0x0800_0000,
                i <= n * 21,
                seen@.len() == i,
                forall|s: int| 0 <= s < i ==> #[trigger] seen@[s] == false,
            decreases n * 21 - i,
        {
            seen.push(false);
            i = i + 1;
        }
        proof {
            assert(self.noted(seen@, 0, 0)) by {
                assert forall|s: int, z: int| 0 <= s < self.n() && 0 <= z <= 20 implies #[trigger] seen@[spot(
                    s,
                    z,
                )] == self.listed_before(0, 0, s, z) by {
                    assert(0 <= spot(s, z) < n * 21);
                }
            }
        }
        i = 0;
        while i < self.listings.len()
            invariant
                self.shaped(),
                self.filled(),
                geo.wf(),
                geo.options() == self.opts,
                n == self.n(),
                live@.len() == n,
                forall|t: int| 0 <= t < n ==> #[trigger] live@[t] == self.has(t),
                forall|t: int| #[trigger] self.has(t) ==> 0 <= t < n,
                i <= self.listings.len(),
                self.noted(seen@, i as int, 0),
            decreases self.listings.len() - i,
        {
            let z = level_of(self.listings[i].0);
            let m = self.listings[i].1.len();
            if m == 0 {
                proof {
                    let f = Flaw::EmptyCell { level: z };
                    assert(self.listing_flaw(f, i as int, 0));
                }
                return Err(Flaw::EmptyCell { level: z });
            }
            let mut j: usize = 0;
            while j < m
                invariant
                    self.shaped(),
                    self.filled(),
                    geo.wf(),
                    geo.options() == self.opts,
                    n == self.n(),
                    live@.len() == n,
                    forall|t: int| 0 <= t < n ==> #[trigger] live@[t] == self.has(t),
                    forall|t: int| #[trigger] self.has(t) ==> 0 <= t < n,
                    i < self.listings.len(),
                    m == self.listings[i as int].1.len(),
                    z == key_level(self.listings[i as int].0),
                    j <= m,
                    self.noted(seen@, i as int, j as int),
                decreases m - j,
            {
                match self.check_listing(geo, live, i, j) {
                    Some(f) => {
                        return Err(f);
                    },
                    None => {},
                }
                let s = self.listings[i].1[j];
                let at = s as usize * 21 + z as usize;
                proof {
                    assert(self.lists_at(i as int, j as int, s as int, z as int));
                    assert(at == spot(s as int, z as int));
                }
                if seen[at] {
                    proof {
                        assert(self.listed_before(i as int, j as int, s as int, z as int));
                        let f = Flaw::ListedTwice { slot: s, level: z };
                        assert(self.listing_flaw(f, i as int, j as int));
                    }
                    return Err(Flaw::ListedTwice { slot: s, level: z });
                }
                proof {
                    self.lemma_noted(seen@, i as int, j as int, s as int, z as int);
                }
                seen[at] = true;
                j = j + 1;
            }
            proof {
                assert(self.bucket_ok(i as int));
                self.lemma_noted_next(seen@, i as int);
            }
            i = i + 1;
        }
        let ghost f = |s: int| self.levels(s);
        proof {
            assert(self.given_to(0, 0)) by {
                assert forall|t: int, v: int| #[trigger] self.expects(t, v) && (t < 0 || (t == 0
                    && v < 0)) implies self.gives(t, v) by {
                    self.lemma_placed(t);
                }
            }
        }
        let mut expect: usize = 0;
        let mut s: usize = 0;
        while s < n
            invariant
                self.shaped(),
                self.filled(),
                n == self.n(),
                live@.len() == n,
                forall|t: int| 0 <= t < n ==> #[trigger] live@[t] == self.has(t),
                forall|t: int| #[trigger] self.has(t) ==> 0 <= t < n,
                self.noted(seen@, self.listings.len() as int, 0),
                s <= n,
                f == (|s: int| self.levels(s)),
                expect == total(s as int, f),
                expect <= s * 21,
                self.given_to(s as int, 0),
            decreases n - s,
        {
            let ghost was = expect as int;
            proof {
                assert(total(s + 1, f) == total(s as int, f) + f(s as int));
            }
            if live[s] {
                proof {
                    self.lemma_placed(s as int);
                    assert(self.given_to(s as int, self.nodes[s as int].tz as int)) by {
                        assert forall|t: int, v: int| #[trigger] self.expects(t, v) && (t < s || (t
                            == s && v < self.nodes[s as int].tz)) implies self.gives(t, v) by {}
                    }
                }
                let t = self.nodes[s].tz;
                let top = self.opts.max_zoom as i8;
                let mut z: i8 = t;
                while z <= top
                    invariant
                        self.shaped(),
                        self.filled(),
                        n == self.n(),
                        s < n,
                        self.has(s as int),
                        self.given_to(s as int, z as int),
                        t == self.nodes[s as int].tz,
                        top == self.top(),
                        0 <= t <= top + 1,
                        t <= z <= top + 1,
                        self.all_placed(),
                        top <= 20,
                        self.noted(seen@, self.listings.len() as int, 0),
                        expect == was + (z - t),
                        was <= s * 21,
                    decreases top + 1 - z,
                {
                    proof {
                        assert(0 <= spot(s as int, z as int) < n * 21);
                    }
                    proof {
                        self.lemma_given(seen@, s as int, z as int);
                    }
                    if !seen[s * 21 + z as usize] {
                        return Err(
                            Flaw::Missing { slot: s as Slot, own: t, level: z as u64 },
                        );
                    }
                    expect = expect + 1;
                    z = z + 1;
                }
            }
            proof {
                assert forall|t: int, v: int| #[trigger] self.expects(t, v) && (t < s + 1 || (t == s
                    + 1 && v < 0)) implies self.gives(t, v) by {
                    self.lemma_placed(t);
                    if t == s {
                        assert(live@[t]);
                    }
                }
            }
            s = s + 1;
        }
        proof {
            lemma_total_ext(self.n(), f, |s: int| self.levels(s));
        }
        proof {
            assert forall|t: int, v: int| #[trigger] self.expects(t, v) implies self.gives(t, v) by {
                assert(t < n);
            }
        }
        if self.entries != expect {
            return Err(Flaw::Leak { found: self.entries, want: expect });
        }
        Ok(expect)
    }
}

impl Dump {
    /// How many ancestors slot `s` has.
    pub open spec fn depth(&self, s: int) -> int
        decreases self.nodes[s].tz as int,
    {
        let p = self.nodes[s].par;
        if p == NONE || !(0 <= self.nodes[p as int].tz < self.nodes[s].tz) {
            0
        } else {
            1 + self.depth(p as int)
        }
    }

    /// How many slots of the tree are at a level from `lo` to `hi`.
    pub open spec fn between(&self, lo: int, hi: int) -> int {
        total(
            self.n(),
            |s: int|
                if self.has(s) && lo <= self.nodes[s].tz <= hi {
                    1
                } else {
                    0
                },
        )
    }

    /// What a summary should say.
    pub open spec fn summed_up(&self, v: Verification) -> bool {
        &&& v.points == self.ids.len()
        &&& v.centers == self.between(0, self.top())
        &&& v.leaves == self.between(self.top() + 1, self.top() + 1)
        &&& v.grid_listings == total(self.n(), |s: int| self.levels(s))
        &&& forall|s: int| #[trigger] self.has(s) ==> self.depth(s) <= v.max_depth
        &&& v.max_depth > 0 ==> exists|s: int| #[trigger] self.has(s) && self.depth(s) == v.max_depth
    }

    fn climb(&self, live: &Vec<bool>, from: Slot) -> (d: usize)
        requires
            self.shaped(),
            self.all_placed(),
            self.has(from as int),
        ensures
            d == self.depth(from as int),
            d <= 21,
    {
        let mut s = from;
        let mut d: usize = 0;
        proof {
            self.lemma_placed(from as int);
            self.lemma_slot_range(from as int);
        }
        while self.nodes[s as usize].par != NONE
            invariant
                self.shaped(),
                self.all_placed(),
                self.has(s as int),
                s < self.n(),
                0 <= self.nodes[s as int].tz <= 21,
                self.depth(from as int) == d + self.depth(s as int),
                d + self.nodes[s as int].tz <= 21,
            decreases self.nodes[s as int].tz,
        {
            proof {
                self.lemma_placed(s as int);
                let p = self.nodes[s as int].par as int;
                self.lemma_placed(p);
                self.lemma_slot_range(p);
            }
            s = self.nodes[s as usize].par;
            d = d + 1;
        }
        d
    }

    /// Check every invariant, returning a summary or the first violation found.
    ///
    /// The separation check compares every pair of centers, deliberately, because using the grid
    /// to check the grid would prove nothing. Do not call it on a large index on a hot path.
    pub fn verify(&self) -> (r: Result<Verification, Flaw>)
        ensures
            match r {
                Ok(v) => self.sound() && self.summed_up(v),
                Err(f) => !self.sound() && self.flawed(f),
            },
    {
        let live = match self.live_slots() {
            Ok(live) => live,
            Err(f) => {
                proof {
                    self.lemma_flawed(f);
                }
                return Err(f);
            },
        };
        let geo = Geometry::new(self.opts);
        match self.check_places(&geo, &live) {
            Some(f) => {
                proof {
                    self.lemma_flawed(f);
                }
                return Err(f);
            },
            None => {},
        }
        match self.check_lists(&live) {
            Some(f) => {
                proof {
                    self.lemma_flawed(f);
                }
                return Err(f);
            },
            None => {},
        }
        match self.check_apart(&geo, &live) {
            Some(f) => {
                proof {
                    self.lemma_flawed(f);
                }
                return Err(f);
            },
            None => {},
        }
        match self.check_totals(&live) {
            Some(f) => {
                proof {
                    self.lemma_flawed(f);
                }
                return Err(f);
            },
            None => {},
        }
        if self.opts.cell_count() > 0 {
            match self.check_cells(&live) {
                Some(f) => {
                    proof {
                        self.lemma_flawed(f);
                    }
                    return Err(f);
                },
                None => {},
            }
        }
        let grid_listings = match self.check_grid(&geo, &live) {
            Ok(m) => m,
            Err(f) => {
                proof {
                    self.lemma_flawed(f);
                }
                return Err(f);
            },
        };
        let (centers, leaves, max_depth) = self.sum_up(&live);
        Ok(Verification { points: self.ids.len(), centers, leaves, grid_listings, max_depth })
    }

    /// Count centers and leaves, and find the longest way up.
    fn sum_up(&self, live: &Vec<bool>) -> (r: (usize, usize, usize))
        requires
            self.shaped(),
            self.all_placed(),
            live@.len() == self.n(),
            forall|t: int| 0 <= t < self.n() ==> #[trigger] live@[t] == self.has(t),
            forall|t: int| #[trigger] self.has(t) ==> 0 <= t < self.n(),
        ensures
            r.0 == self.between(0, self.top()),
            r.1 == self.between(self.top() + 1, self.top() + 1),
            forall|s: int| #[trigger] self.has(s) ==> self.depth(s) <= r.2,
            r.2 > 0 ==> exists|s: int| #[trigger] self.has(s) && self.depth(s) == r.2,
    {
        let n = self.nodes.len();
        let ghost top = self.top();
        let ghost f = |s: int|
            if self.has(s) && 0 <= self.nodes[s].tz <= top {
                1int
            } else {
                0
            };
        let ghost g = |s: int|
            if self.has(s) && top + 1 <= self.nodes[s].tz <= top + 1 {
                1int
            } else {
                0
            };
        let mut centers: usize = 0;
        let mut leaves: usize = 0;
        let mut deep: usize = 0;
        let mut s: usize = 0;
        while s < n
            invariant
                self.shaped(),
                self.all_placed(),
                n == self.n(),
                live@.len() == n,
                forall|t: int| 0 <= t < n ==> #[trigger] live@[t] == self.has(t),
                top == self.top(),
                f == (|s: int|
                    if self.has(s) && 0 <= self.nodes[s].tz <= top {
                        1int
                    } else {
                        0
                    }),
                g == (|s: int|
                    if self.has(s) && top + 1 <= self.nodes[s].tz <= top + 1 {
                        1int
                    } else {
                        0
                    }),
                s <= n,
                centers == total(s as int, f),
                leaves == total(s as int, g),
                centers <= s,
                leaves <= s,
                forall|t: int| t < s && #[trigger] self.has(t) ==> self.depth(t) <= deep,
                deep > 0 ==> exists|t: int| #[trigger] self.has(t) && self.depth(t) == deep,
            decreases n - s,
        {
            proof {
                assert(total(s + 1, f) == total(s as int, f) + f(s as int));
                assert(total(s + 1, g) == total(s as int, g) + g(s as int));
            }
            if live[s] {
                proof {
                    self.lemma_placed(s as int);
                }
                if self.nodes[s].tz <= self.opts.max_zoom as i8 {
                    centers = centers + 1;
                } else {
                    leaves = leaves + 1;
                }
                let d = self.climb(live, s as Slot);
                if d > deep {
                    deep = d;
                }
            }
            s = s + 1;
        }
        proof {
            lemma_total_ext(
                self.n(),
                f,
                |s: int|
                    if self.has(s) && 0 <= self.nodes[s].tz <= self.top() {
                        1int
                    } else {
                        0
                    },
            );
            lemma_total_ext(
                self.n(),
                g,
                |s: int|
                    if self.has(s) && self.top() + 1 <= self.nodes[s].tz <= self.top() + 1 {
                        1int
                    } else {
                        0
                    },
            );
        }
        (centers, leaves, deep)
    }
}

/// The numbers kept under cell `c`: those of its first entry.
pub open spec fn kept_in(q: Seq<(u32, i32, i64, i64)>, c: int) -> (int, int, int)
    decreases q.len(),
{
    if q.len() == 0 {
        (0, 0, 0)
    } else if q[0].0 == c {
        (q[0].1 as int, q[0].2 as int, q[0].3 as int)
    } else {
        kept_in(q.skip(1), c)
    }
}

} // verus!
