//! Per-node filter aggregates, in whichever layout fits.
//!
//! A *cell* is one combination of filter values. Every node of the tree carries
//! `(count, sum of x, sum of y)` for each cell occurring beneath it, so a filtered query reads a
//! precomputed total instead of walking the subtree.
//!
//! There are two layouts behind one interface: *dense*, a flat array of `slot * cells + cell`,
//! and *sparse*, entries keyed by `(slot, cell)` that exist only while their count is not zero,
//! each node's entries on a list of its own.
use crate::cellhash::{CellHash, EMPTY};
use crate::geometry::MAX_CELLS;
use crate::layouts::{did, TableCall};
use crate::sums::{
    lemma_sum_at_least, lemma_sum_change, lemma_sum_concat, lemma_sum_ext, lemma_sum_one,
    lemma_sum_remove, lemma_total_change, lemma_total_le, lemma_total_extend, lemma_total_ext,
    lemma_total_zero, sum_over, total,
};
use vstd::prelude::*;

verus! {

/// The end of an entry list.
const NIL: i32 = -1;

/// Room that a sparse key reserves for the cell.
const CELL_ROOM: u64 = 0x100_0000;

/// The most entries the sparse layout can link.
pub const MAX_ENTRIES: i32 = i32::MAX;

pub struct CellTable {
    cells: usize,
    dense: bool,
    cap: usize,
    cnt: Vec<i32>,
    sx: Vec<i64>,
    sy: Vec<i64>,
    agg: CellHash,
    cell_of: Vec<u32>,
    next: Vec<i32>,
    prev: Vec<i32>,
    head: Vec<i32>,
    n: u32,
    free: i32,
    /// Per slot, the entries on its list.
    lists: Ghost<Seq<Seq<int>>>,
    /// The free entries, the next to be used last.
    spare: Ghost<Seq<int>>,
    /// Per entry, the slot whose list it is on and its position there; slot -1 for a free one.
    place: Ghost<Seq<(int, int)>>,
    /// Per slot, the sum of its counts.
    loads: Ghost<Seq<int>>,
}

/// The position of `(s, c)` in the flat array.
spec fn flat(s: int, c: int, cells: int) -> int {
    s * cells + c
}

proof fn lemma_flat_range(s: int, c: int, cells: int, cap: int)
    requires
        0 <= s < cap,
        0 <= c < cells,
    ensures
        0 <= flat(s, c, cells) < cap * cells,
{
    assert(0 <= s * cells && s * cells + cells <= cap * cells) by (nonlinear_arith)
        requires
            0 <= s < cap,
            0 < cells,
    ;
}

proof fn lemma_flat_injective(s: int, c: int, t: int, d: int, cells: int)
    requires
        0 <= c < cells,
        0 <= d < cells,
        flat(s, c, cells) == flat(t, d, cells),
    ensures
        s == t,
        c == d,
{
    if s < t {
        assert(t * cells >= s * cells + cells) by (nonlinear_arith)
            requires
                s < t,
                cells > 0,
        ;
    } else if t < s {
        assert(s * cells >= t * cells + cells) by (nonlinear_arith)
            requires
                t < s,
                cells > 0,
        ;
    }
}

/// The directory key of `(s, c)`.
spec fn key_of(s: int, c: int) -> u64 {
    (s * CELL_ROOM + c) as u64
}

proof fn lemma_key(s: int, c: int, t: int, d: int)
    requires
        0 <= s <= u32::MAX,
        0 <= t <= u32::MAX,
        0 <= c < CELL_ROOM,
        0 <= d < CELL_ROOM,
    ensures
        key_of(s, c) == key_of(t, d) ==> s == t && c == d,
        key_of(s, c) != EMPTY,
        key_of(s, c) == s * CELL_ROOM + c,
{
}

/// What adding `d` leaves of `m`: the sparse layout forgets an entry whose count reaches zero.
pub open spec fn bumped(dense: bool, m: (int, int, int), d: (int, int, int)) -> (int, int, int) {
    if !dense && m.0 + d.0 == 0 {
        (0, 0, 0)
    } else {
        (m.0 + d.0, m.1 + d.1, m.2 + d.2)
    }
}

/// **The layouts agree**: the dense and the sparse layout are left with the same numbers where
/// an entry whose count comes down to zero has nothing left in its sums either, which is so of
/// what points add up to.
pub proof fn law_layouts(m: (int, int, int), d: (int, int, int))
    requires
        m.0 + d.0 == 0 ==> m.1 + d.1 == 0 && m.2 + d.2 == 0,
    ensures
        bumped(true, m, d) == bumped(false, m, d),
{
}

/// The numbers fit the machine integers that hold them.
pub open spec fn mass_fits(m: (int, int, int)) -> bool {
    0 <= m.0 <= i32::MAX && i64::MIN <= m.1 <= i64::MAX && i64::MIN <= m.2 <= i64::MAX
}

/// How many elements `v` has room for without growing.
///
/// Calls `Vec::capacity`, which is never less than the length.
#[verifier::external_body]
fn capacity_of<T>(v: &Vec<T>) -> (c: usize)
    ensures
        c >= v.len(),
{
    v.capacity()
}

impl CellTable {
    /// How many slots there is room for.
    pub closed spec fn slots(&self) -> int {
        self.cap as int
    }

    /// How many cells a slot can hold.
    pub closed spec fn width(&self) -> int {
        self.cells as int
    }

    /// Whether the aggregates are in a flat array.
    pub closed spec fn is_dense(&self) -> bool {
        self.dense
    }

    spec fn at_entry(&self, e: int) -> (int, int, int) {
        (self.cnt[e] as int, self.sx[e] as int, self.sy[e] as int)
    }

    /// Count and coordinate sums of cell `c` under slot `s`.
    pub closed spec fn val(&self, s: int, c: int) -> (int, int, int) {
        if !(0 <= s < self.cap && 0 <= c < self.cells) {
            (0, 0, 0)
        } else if self.dense {
            self.at_entry(flat(s, c, self.cells as int))
        } else if self.agg@.contains_key(key_of(s, c)) {
            self.at_entry(self.agg@[key_of(s, c)] as int)
        } else {
            (0, 0, 0)
        }
    }

    /// The sum of all counts under slot `s`.
    pub closed spec fn load(&self, s: int) -> int {
        self.loads@[s]
    }

    /// The sum of all counts in the table.
    pub open spec fn total_load(&self) -> int {
        total(self.slots(), |s: int| self.load(s))
    }

    spec fn count_fn(&self) -> spec_fn(int) -> int {
        |e: int| self.cnt[e] as int
    }

    spec fn linked(&self, s: int, i: int) -> bool {
        let q = self.lists@[s];
        let e = q[i];
        &&& 0 <= e < self.n
        &&& self.place@[e] == (s, i)
        &&& self.next[e] == (if i + 1 < q.len() {
            q[i + 1]
        } else {
            NIL as int
        })
        &&& self.prev[e] == (if i > 0 {
            q[i - 1]
        } else {
            NIL as int
        })
    }

    spec fn keyed(&self, s: int, i: int) -> bool {
        let e = self.lists@[s][i];
        &&& self.cell_of[e] < self.cells
        &&& self.agg@.contains_key(key_of(s, self.cell_of[e] as int))
        &&& self.agg@[key_of(s, self.cell_of[e] as int)] == e
    }

    spec fn spared(&self, i: int) -> bool {
        let f = self.spare@;
        &&& 0 <= f[i] < self.n
        &&& self.place@[f[i]] == (-1int, i)
        &&& self.next[f[i]] == (if i > 0 {
            f[i - 1]
        } else {
            NIL as int
        })
    }

    spec fn placed(&self, e: int) -> bool {
        let (s, i) = self.place@[e];
        if s == -1 {
            0 <= i < self.spare@.len() && self.spare@[i] == e
        } else {
            0 <= s < self.cap && 0 <= i < self.lists@[s].len() && self.lists@[s][i] == e
        }
    }

    /// Whose entry `k` leads to.
    spec fn owned(&self, k: u64) -> bool {
        let e = self.agg@[k] as int;
        &&& e < self.n
        &&& self.place@[e].0 != -1
        &&& k == key_of(self.place@[e].0, self.cell_of[e] as int)
    }

    spec fn headed(&self, s: int) -> bool {
        self.head[s] == (if self.lists@[s].len() > 0 {
            self.lists@[s][0]
        } else {
            NIL as int
        })
    }

    spec fn list_len(&self) -> spec_fn(int) -> int {
        |s: int| self.lists@[s].len() as int
    }

    spec fn lens(&self) -> bool {
        &&& self.cnt.len() == self.n
        &&& self.sx.len() == self.n
        &&& self.sy.len() == self.n
        &&& self.cell_of.len() == self.n
        &&& self.next.len() == self.n
        &&& self.prev.len() == self.n
        &&& self.place@.len() == self.n
        &&& self.head.len() == self.cap
        &&& self.lists@.len() == self.cap
        &&& self.n <= MAX_ENTRIES
        &&& (self.n + 1) * 64 <= usize::MAX
    }

    /// The lists, the free list and the directory agree; counts may be anything.
    spec fn sparse_links(&self) -> bool {
        &&& self.lens()
        &&& self.agg.wf()
        &&& self.free == (if self.spare@.len() > 0 {
            self.spare@.last()
        } else {
            NIL as int
        })
        &&& forall|s: int| 0 <= s < self.cap ==> #[trigger] self.headed(s)
        &&& forall|s: int, i: int|
            0 <= s < self.cap && 0 <= i < self.lists@[s].len() ==> #[trigger] self.linked(s, i)
        &&& forall|s: int, i: int|
            0 <= s < self.cap && 0 <= i < self.lists@[s].len() ==> #[trigger] self.keyed(s, i)
        &&& forall|i: int| 0 <= i < self.spare@.len() ==> #[trigger] self.spared(i)
        &&& forall|e: int| 0 <= e < self.n ==> #[trigger] self.placed(e)
        &&& forall|k: u64| #[trigger] self.agg@.contains_key(k) ==> self.owned(k)
        &&& self.n - self.spare@.len() == total(self.cap as int, self.list_len())
    }

    /// Every entry but `x` counts something, and the loads are the sums of the counts.
    spec fn counted(&self, x: int) -> bool {
        &&& forall|s: int, i: int|
            0 <= s < self.cap && 0 <= i < self.lists@[s].len() && self.lists@[s][i] != x
                ==> self.cnt[#[trigger] self.lists@[s][i]] >= 1
        &&& forall|s: int|
            0 <= s < self.cap ==> #[trigger] self.loads@[s] == sum_over(
                self.lists@[s],
                self.count_fn(),
            )
    }

    spec fn base(&self) -> bool {
        &&& self.cells <= MAX_CELLS
        &&& self.cap <= u32::MAX
        &&& self.loads@.len() == self.cap
        &&& self.dense ==> self.cells > 0
        &&& self.cells == 0 ==> forall|s: int| 0 <= s < self.cap ==> #[trigger] self.loads@[s] == 0
    }

    spec fn dense_ok(&self) -> bool {
        &&& self.cnt.len() == self.cap * self.cells
        &&& self.sx.len() == self.cap * self.cells
        &&& self.sy.len() == self.cap * self.cells
    }

    spec fn row(&self, s: int) -> spec_fn(int) -> int {
        |c: int| self.val(s, c).0
    }

    spec fn dense_loads(&self) -> bool {
        forall|s: int|
            0 <= s < self.cap ==> #[trigger] self.loads@[s] == total(
                self.cells as int,
                self.row(s),
            )
    }

    pub closed spec fn wf(&self) -> bool {
        &&& self.base()
        &&& self.dense ==> self.dense_ok() && self.dense_loads()
        &&& !self.dense ==> self.sparse_links() && self.counted(-1)
    }

    /// Outside its cells and slots a table holds nothing.
    pub proof fn lemma_outside(&self, s: int, c: int)
        ensures
            !(0 <= s < self.slots() && 0 <= c < self.width()) ==> self.val(s, c) == (
                0int,
                0int,
                0int,
            ),
    {
    }

    /// A table for no slot yet.
    pub fn new(cells: usize, dense_cells: usize) -> (t: Self)
        requires
            cells <= MAX_CELLS,
        ensures
            t.wf(),
            t.width() == cells,
            t.is_dense() == (0 < cells <= dense_cells),
            t.slots() == 0,
            forall|s: int, c: int| #[trigger] t.val(s, c) == (0int, 0int, 0int),
    {
        let dense = cells > 0 && cells <= dense_cells;
        let t = CellTable {
            cells,
            dense,
            cap: 0,
            cnt: Vec::new(),
            sx: Vec::new(),
            sy: Vec::new(),
            agg: CellHash::with_capacity(
                if dense {
                    1
                } else {
                    1024
                },
            ),
            cell_of: Vec::new(),
            next: Vec::new(),
            prev: Vec::new(),
            head: Vec::new(),
            n: 0,
            free: NIL,
            lists: Ghost(Seq::empty()),
            spare: Ghost(Seq::empty()),
            place: Ghost(Seq::empty()),
            loads: Ghost(Seq::empty()),
        };
        proof {
            assert(t.base());
            if dense {
                assert(0 * cells == 0);
                assert(t.dense_ok() && t.dense_loads());
            } else {
                assert(total(0, t.list_len()) == 0);
                assert(t.sparse_links());
                assert(t.counted(-1));
            }
        }
        t
    }

    /// Whether any filter is kept.
    pub fn enabled(&self) -> (r: bool)
        ensures
            r == (self.width() > 0),
    {
        self.cells > 0
    }

    fn key(s: u32, cell: u32) -> (k: u64)
        requires
            cell < CELL_ROOM,
        ensures
            k == key_of(s as int, cell as int),
            k != EMPTY,
    {
        (s as u64) * CELL_ROOM + cell as u64
    }

    /// Make room for slots below `cap`; the new ones hold nothing.
    pub fn grow(&mut self, cap: usize)
        requires
            old(self).wf(),
            old(self).slots() <= cap <= u32::MAX,
            old(self).is_dense() ==> cap * old(self).width() <= usize::MAX,
        ensures
            final(self).wf(),
            did(*old(self), (TableCall::Grow { cap: cap as int }), *final(self)),
            final(self).slots() == cap,
            final(self).width() == old(self).width(),
            final(self).is_dense() == old(self).is_dense(),
            forall|s: int, c: int|
                0 <= s < old(self).slots() ==> #[trigger] final(self).val(s, c) == old(self).val(s, c),
            forall|s: int, c: int|
                old(self).slots() <= s ==> #[trigger] final(self).val(s, c) == (0int, 0int, 0int),
            forall|s: int|
                0 <= s < old(self).slots() ==> #[trigger] final(self).load(s) == old(self).load(s),
            forall|s: int| old(self).slots() <= s < cap ==> #[trigger] final(self).load(s) == 0,
            final(self).total_load() == old(self).total_load(),
    {
        let ghost o = *self;
        let ghost was = self.cap as int;
        if self.dense {
            self.cnt.resize(cap * self.cells, 0);
            self.sx.resize(cap * self.cells, 0);
            self.sy.resize(cap * self.cells, 0);
        } else {
            self.head.resize(cap, NIL);
            self.lists = Ghost(
                Seq::new(
                    cap as nat,
                    |s: int|
                        if s < was {
                            self.lists@[s]
                        } else {
                            Seq::<int>::empty()
                        },
                ),
            );
        }
        self.cap = cap;
        self.loads = Ghost(
            Seq::new(
                cap as nat,
                |s: int|
                    if s < was {
                        self.loads@[s]
                    } else {
                        0int
                    },
            ),
        );
        proof {
            let nf = |s: int| self.load(s);
            let of = |s: int| o.load(s);
            lemma_total_extend(was, cap as int, nf);
            lemma_total_ext(was, nf, of);
            if !self.dense {
                assert forall|s: int, i: int|
                    0 <= s < self.cap && 0 <= i < self.lists@[s].len() implies #[trigger] self.linked(
                    s,
                    i,
                ) by {
                    assert(o.linked(s, i));
                }
                assert forall|s: int, i: int|
                    0 <= s < self.cap && 0 <= i < self.lists@[s].len() implies #[trigger] self.keyed(
                    s,
                    i,
                ) by {
                    assert(o.linked(s, i) && o.keyed(s, i));
                }
                assert forall|s: int| 0 <= s < self.cap implies #[trigger] self.headed(s) by {
                    if s < was {
                        assert(o.headed(s));
                    }
                }
                assert forall|i: int| 0 <= i < self.spare@.len() implies #[trigger] self.spared(
                    i,
                ) by {
                    assert(o.spared(i));
                }
                assert forall|e: int| 0 <= e < self.n implies #[trigger] self.placed(e) by {
                    assert(o.placed(e));
                }
                assert forall|k: u64| #[trigger] self.agg@.contains_key(k) implies self.owned(
                    k,
                ) by {
                    assert(o.owned(k));
                }
                lemma_total_extend(was, cap as int, self.list_len());
                lemma_total_ext(was, self.list_len(), o.list_len());
                assert forall|s: int| 0 <= s < self.cap implies #[trigger] self.loads@[s]
                    == sum_over(self.lists@[s], self.count_fn()) by {
                    if s < was {
                        assert(o.loads@[s] == sum_over(o.lists@[s], o.count_fn()));
                        lemma_sum_ext(self.lists@[s], self.count_fn(), o.count_fn());
                    }
                }
                assert forall|s: int, i: int|
                    0 <= s < self.cap && 0 <= i < self.lists@[s].len() && self.lists@[s][i]
                        != -1 implies self.cnt[#[trigger] self.lists@[s][i]] >= 1 by {
                    assert(o.cnt[o.lists@[s][i]] >= 1);
                }
            } else {
                assert(was * self.cells <= cap * self.cells) by (nonlinear_arith)
                    requires
                        was <= cap,
                ;
            }
            assert forall|s: int, c: int| 0 <= s < was implies #[trigger] self.val(s, c) == o.val(
                s,
                c,
            ) by {
                if self.dense && 0 <= c < self.cells {
                    lemma_flat_range(s, c, self.cells as int, was);
                }
            }
            if self.dense {
                assert forall|s: int| 0 <= s < was implies #[trigger] self.loads@[s] == total(
                    self.cells as int,
                    self.row(s),
                ) by {
                    assert(o.loads@[s] == total(o.cells as int, o.row(s)));
                    assert forall|c: int| 0 <= c < self.cells implies #[trigger] o.row(s)(c)
                        == self.row(s)(c) by {
                        assert(self.val(s, c) == o.val(s, c));
                    }
                    lemma_total_ext(self.cells as int, o.row(s), self.row(s));
                }
            }
            assert forall|s: int, c: int| was <= s implies #[trigger] self.val(s, c) == (
                0int,
                0int,
                0int,
            ) by {
                if s < cap && 0 <= c < self.cells {
                    if self.dense {
                        lemma_flat_range(s, c, self.cells as int, cap as int);
                        assert(s * self.cells >= was * self.cells) by (nonlinear_arith)
                            requires
                                was <= s,
                        ;
                    } else if self.agg@.contains_key(key_of(s, c)) {
                        assert(o.owned(key_of(s, c)));
                        let e = o.agg@[key_of(s, c)] as int;
                        assert(o.placed(e));
                        let (t, i) = o.place@[e];
                        assert(o.keyed(t, i));
                        lemma_key(s, c, t, o.cell_of[e] as int);
                    }
                }
            }
            if self.dense {
                assert forall|s: int| 0 <= s < cap implies #[trigger] self.loads@[s] == total(
                    self.cells as int,
                    self.row(s),
                ) by {
                    if s >= was {
                        assert forall|c: int| 0 <= c < self.cells implies #[trigger] self.row(s)(c)
                            == 0 by {
                            assert(self.val(s, c) == (0int, 0int, 0int));
                        }
                        lemma_total_zero(self.cells as int, self.row(s));
                    }
                }
            }
        }
    }

    /// A pair that can be asked for: in the flat array a slot and a cell of the table, else any
    /// slot and any cell that has a key.
    pub open spec fn askable(&self, s: int, c: int) -> bool {
        if self.is_dense() {
            s < self.slots() && c < self.width()
        } else {
            c < MAX_CELLS
        }
    }

    /// Where the aggregates of `(s, cell)` are kept, if they are: in the flat array at a fixed
    /// position, else wherever an entry was free, as long as something is counted.
    pub fn find(&self, s: u32, cell: u32) -> (r: Option<usize>)
        requires
            self.wf(),
            self.askable(s as int, cell as int),
        ensures
            match r {
                Some(e) => self.entry_of(s as int, cell as int, e),
                None => self.val(s as int, cell as int) == (0int, 0int, 0int),
            },
            self.is_dense() ==> r is Some && r->Some_0 == s * self.width() + cell,
            !self.is_dense() ==> (r is Some <==> self.val(s as int, cell as int).0 != 0),
    {
        if self.dense {
            proof {
                lemma_flat_range(s as int, cell as int, self.cells as int, self.cap as int);
                assert(s * self.cells + cell <= usize::MAX);
                assert(s * self.cells >= 0) by (nonlinear_arith);
            }
            Some(s as usize * self.cells + cell as usize)
        } else {
            match self.agg.get(Self::key(s, cell)) {
                Some(e) => {
                    proof {
                        self.lemma_filed(s as int, cell as int);
                    }
                    Some(e as usize)
                },
                None => None,
            }
        }
    }

    /// What the directory leads to is an entry of that slot and cell, and counts something.
    proof fn lemma_filed(&self, s: int, c: int)
        requires
            self.wf(),
            !self.dense,
            0 <= s <= u32::MAX,
            0 <= c < CELL_ROOM,
            self.agg@.contains_key(key_of(s, c)),
        ensures
            s < self.cap,
            c < self.cells,
            self.agg@[key_of(s, c)] < self.n,
            self.cnt[self.agg@[key_of(s, c)] as int] >= 1,
    {
        assert(self.owned(key_of(s, c)));
        let e = self.agg@[key_of(s, c)] as int;
        assert(self.placed(e));
        let (t, i) = self.place@[e];
        assert(self.keyed(t, i));
        lemma_key(s, c, t, self.cell_of[e] as int);
        assert(self.cnt[self.lists@[t][i]] >= 1);
    }

    /// Position `e` is where `(s, c)` is kept, and holds what [`CellTable::val`] says of it.
    pub closed spec fn entry_of(&self, s: int, c: int, e: usize) -> bool {
        &&& 0 <= s < self.cap
        &&& 0 <= c < self.cells
        &&& e < self.cnt.len()
        &&& e < self.sx.len()
        &&& e < self.sy.len()
        &&& self.dense ==> e == flat(s, c, self.cells as int)
        &&& !self.dense ==> self.agg@.contains_key(key_of(s, c)) && self.agg@[key_of(s, c)] == e
        &&& self.at_entry(e as int) == self.val(s, c)
    }

    /// **Positions**: no position is that of two pairs.
    pub proof fn law_positions(&self, s: int, c: int, t: int, d: int, e: usize)
        requires
            self.wf(),
            self.entry_of(s, c, e),
            self.entry_of(t, d, e),
        ensures
            s == t,
            c == d,
    {
        if self.dense {
            lemma_flat_injective(s, c, t, d, self.cells as int);
        } else {
            assert(self.owned(key_of(s, c)) && self.owned(key_of(t, d)));
            lemma_key(s, c, t, d);
        }
    }

    /// How many points of `cell` sit under `s`.
    pub fn count(&self, s: u32, cell: u32) -> (n: i32)
        requires
            self.wf(),
            self.askable(s as int, cell as int),
        ensures
            n == self.val(s as int, cell as int).0,
    {
        match self.find(s, cell) {
            Some(e) => self.cnt[e],
            None => 0,
        }
    }

    /// The aggregates kept at a position that [`CellTable::find`] gave.
    pub fn at(&self, e: usize) -> (r: (i32, i64, i64))
        requires
            exists|s: int, c: int| #[trigger] self.entry_of(s, c, e),
        ensures
            forall|s: int, c: int| #[trigger]
                self.entry_of(s, c, e) ==> self.val(s, c) == (r.0 as int, r.1 as int, r.2 as int),
    {
        (self.cnt[e], self.sx[e], self.sy[e])
    }

    proof fn lemma_entries_bound(&self, x: int)
        requires
            self.base(),
            self.sparse_links(),
            self.counted(x),
            x == -1,
        ensures
            self.n - self.spare@.len() <= self.total_load(),
            forall|s: int| 0 <= s < self.cap ==> #[trigger] self.loads@[s] >= 0,
            self.agg@.len() <= self.n,
            self.agg@.dom().finite(),
    {
        let f = self.list_len();
        let g = |s: int| self.load(s);
        assert forall|s: int| 0 <= s < self.cap implies #[trigger] f(s) <= g(s) by {
            assert(self.loads@[s] == sum_over(self.lists@[s], self.count_fn()));
            assert forall|i: int| 0 <= i < self.lists@[s].len() implies self.count_fn()(
                #[trigger] self.lists@[s][i],
            ) >= 1 by {
                assert(self.linked(s, i));
            }
            lemma_sum_at_least(self.lists@[s], self.count_fn());
        }
        lemma_total_le(self.cap as int, f, g);
        assert forall|s: int| 0 <= s < self.cap implies #[trigger] self.loads@[s] >= 0 by {
            assert(f(s) <= g(s));
        }
        self.lemma_agg_len();
    }

    proof fn lemma_agg_len(&self)
        requires
            self.sparse_links(),
        ensures
            self.agg@.len() <= self.n,
            self.agg@.dom().finite(),
    {
        self.agg.lemma_finite();
        let m = self.agg@;
        assert forall|k: u64| #[trigger] m.contains_key(k) implies m[k] < self.n by {
            assert(self.owned(k));
        }
        assert forall|j: u64, k: u64|
            #![trigger m[j], m[k]]
            m.contains_key(j) && m.contains_key(k) && m[j] == m[k] implies j == k by {
            assert(self.owned(j) && self.owned(k));
        }
        crate::grid::lemma_injective_len(m, self.n as int);
    }

    /// An absent `(s, c)` is in no list.
    proof fn lemma_absent(&self, s: int, c: int)
        requires
            self.base(),
            self.sparse_links(),
            0 <= s < self.cap,
            0 <= c < self.cells,
            !self.agg@.contains_key(key_of(s, c)),
        ensures
            forall|i: int|
                0 <= i < self.lists@[s].len() ==> self.cell_of[#[trigger] self.lists@[s][i]] != c,
    {
        assert forall|i: int| 0 <= i < self.lists@[s].len() implies self.cell_of[#[trigger] self.lists@[s][i]]
            != c by {
            assert(self.keyed(s, i));
        }
    }

    /// The entry of `(s, cell)`, created empty and put in front of the list of `s` if absent.
    fn entry(&mut self, s: u32, cell: u32) -> (e: usize)
        requires
            old(self).wf(),
            !old(self).dense,
            s < old(self).cap,
            cell < old(self).cells,
            old(self).total_load() < MAX_ENTRIES,
            (old(self).total_load() + 2) * 64 <= usize::MAX,
        ensures
            final(self).base(),
            final(self).sparse_links(),
            final(self).counted(e as int),
            e < final(self).n,
            final(self).place@[e as int].0 == s,
            final(self).cell_of[e as int] == cell,
            final(self).cells == old(self).cells,
            final(self).dense == old(self).dense,
            final(self).cap == old(self).cap,
            final(self).loads == old(self).loads,
            final(self).agg@.contains_key(key_of(s as int, cell as int)),
            final(self).agg@[key_of(s as int, cell as int)] == e,
            final(self).at_entry(e as int) == old(self).val(s as int, cell as int),
            forall|t: int, c: int| #[trigger] final(self).val(t, c) == old(self).val(t, c),
    {
        let k = Self::key(s, cell);
        let ghost o = *self;
        let ghost (si, ci) = (s as int, cell as int);
        proof {
            self.lemma_entries_bound(-1);
        }
        if let Some(e) = self.agg.get(k) {
            proof {
                assert(self.owned(k));
                assert(self.placed(e as int));
                let (t, i) = self.place@[e as int];
                assert(self.keyed(t, i));
                lemma_key(si, ci, t, self.cell_of[e as int] as int);
                assert forall|u: int, j: int|
                    0 <= u < self.cap && 0 <= j < self.lists@[u].len() && self.lists@[u][j]
                        != e implies self.cnt[#[trigger] self.lists@[u][j]] >= 1 by {
                    assert(self.linked(u, j));
                }
            }
            return e as usize;
        }
        let ghost q = self.lists@[si];
        let e: usize;
        if self.free != NIL {
            e = self.free as usize;
            proof {
                assert(self.spared(self.spare@.len() - 1));
                if self.spare@.len() > 1 {
                    assert(self.spared(self.spare@.len() - 2));
                }
            }
            self.free = self.next[e];
            self.spare = Ghost(self.spare@.drop_last());
        } else {
            proof {
                if self.spare@.len() > 0 {
                    assert(self.spared(self.spare@.len() - 1));
                }
            }
            e = self.n as usize;
            self.n = self.n + 1;
            self.cnt.push(0);
            self.sx.push(0);
            self.sy.push(0);
            self.cell_of.push(0);
            self.next.push(NIL);
            self.prev.push(NIL);
            self.place = Ghost(self.place@.push((-1int, -1int)));
        }
        let ghost ei = e as int;
        self.cnt[e] = 0;
        self.sx[e] = 0;
        self.sy[e] = 0;
        self.cell_of[e] = cell;
        let head = self.head[s as usize];
        proof {
            assert(o.headed(si));
            if q.len() > 0 {
                assert(o.linked(si, 0));
            }
        }
        self.next[e] = head;
        self.prev[e] = NIL;
        if head != NIL {
            self.prev[head as usize] = e as i32;
        }
        self.head[s as usize] = e as i32;
        self.agg.set(k, e as u32);
        self.lists = Ghost(self.lists@.update(si, seq![ei] + q));
        self.place = Ghost(
            Seq::new(
                self.place@.len(),
                |x: int|
                    if x == ei {
                        (si, 0int)
                    } else if self.place@[x].0 == si {
                        (si, self.place@[x].1 + 1)
                    } else {
                        self.place@[x]
                    },
            ),
        );
        proof {
            assert forall|t: int, i: int|
                0 <= t < o.cap && 0 <= i < o.lists@[t].len() implies #[trigger] o.lists@[t][i]
                != ei by {
                assert(o.linked(t, i));
            }
            assert forall|t: int| 0 <= t < self.cap implies #[trigger] self.headed(t) by {
                assert(o.headed(t));
            }
            assert forall|t: int, i: int|
                0 <= t < self.cap && 0 <= i < self.lists@[t].len() implies #[trigger] self.linked(
                t,
                i,
            ) by {
                if t != si {
                    assert(o.linked(t, i));
                    assert(o.lists@[t][i] != ei);
                    if q.len() > 0 {
                        assert(o.linked(si, 0));
                    }
                } else if i > 0 {
                    assert(o.linked(t, i - 1));
                    assert(o.lists@[t][i - 1] != ei);
                    if q.len() > 0 {
                        assert(o.linked(si, 0));
                    }
                    if i - 1 > 0 {
                        assert(o.linked(si, i - 2));
                    }
                }
            }
            assert forall|t: int, i: int|
                0 <= t < self.cap && 0 <= i < self.lists@[t].len() implies #[trigger] self.keyed(
                t,
                i,
            ) by {
                if t != si {
                    assert(o.keyed(t, i) && o.linked(t, i));
                    assert(o.lists@[t][i] != ei);
                    lemma_key(t, o.cell_of[o.lists@[t][i]] as int, si, ci);
                } else if i > 0 {
                    assert(o.keyed(t, i - 1) && o.linked(t, i - 1));
                    assert(o.lists@[t][i - 1] != ei);
                }
            }
            assert forall|i: int| 0 <= i < self.spare@.len() implies #[trigger] self.spared(i) by {
                assert(o.spared(i));
                if q.len() > 0 {
                    assert(o.linked(si, 0));
                }
            }
            assert forall|x: int| 0 <= x < self.n implies #[trigger] self.placed(x) by {
                if x != ei {
                    assert(o.placed(x));
                }
            }
            assert forall|j: u64| #[trigger] self.agg@.contains_key(j) implies self.owned(j) by {
                if j != k {
                    assert(o.owned(j));
                    assert(o.placed(o.agg@[j] as int));
                    assert(o.agg@[j] != ei) by {
                        let (t, i) = o.place@[o.agg@[j] as int];
                        assert(o.lists@[t][i] != ei);
                    }
                }
            }
            lemma_total_change(self.cap as int, o.list_len(), self.list_len(), si);
            assert forall|t: int| 0 <= t < self.cap implies #[trigger] self.loads@[t] == sum_over(
                self.lists@[t],
                self.count_fn(),
            ) by {
                assert(o.loads@[t] == sum_over(o.lists@[t], o.count_fn()));
                assert forall|i: int| 0 <= i < o.lists@[t].len() implies o.count_fn()(
                    #[trigger] o.lists@[t][i],
                ) == self.count_fn()(o.lists@[t][i]) by {
                    assert(o.linked(t, i));
                    assert(o.lists@[t][i] != ei);
                }
                lemma_sum_ext(o.lists@[t], o.count_fn(), self.count_fn());
                if t == si {
                    lemma_sum_concat(seq![ei], q, self.count_fn());
                    lemma_sum_one(ei, self.count_fn());
                }
            }
            assert forall|t: int, i: int|
                0 <= t < self.cap && 0 <= i < self.lists@[t].len() && self.lists@[t][i]
                    != ei implies self.cnt[#[trigger] self.lists@[t][i]] >= 1 by {
                let j = if t == si {
                    i - 1
                } else {
                    i
                };
                assert(self.lists@[t][i] == o.lists@[t][j]);
                assert(o.linked(t, j));
                assert(o.cnt[o.lists@[t][j]] >= 1);
            }
            assert forall|t: int, c: int| #[trigger] self.val(t, c) == o.val(t, c) by {
                if 0 <= t < self.cap && 0 <= c < self.cells {
                    lemma_key(t, c, si, ci);
                    if o.agg@.contains_key(key_of(t, c)) {
                        let x = o.agg@[key_of(t, c)] as int;
                        assert(o.owned(key_of(t, c)));
                        assert(o.placed(x));
                        let (u, i) = o.place@[x];
                        assert(o.lists@[u][i] != ei);
                    }
                }
            }
        }
        e
    }

    /// Take an entry off the list of `s` and put it onto the free list.
    fn release(&mut self, s: u32, e: usize)
        requires
            old(self).base(),
            old(self).sparse_links(),
            old(self).counted(e as int),
            !old(self).dense,
            s < old(self).cap,
            e < old(self).n,
            old(self).place@[e as int].0 == s,
        ensures
            final(self).wf(),
            final(self).cells == old(self).cells,
            final(self).dense == old(self).dense,
            final(self).cap == old(self).cap,
            final(self).loads@ == old(self).loads@.update(
                s as int,
                old(self).loads@[s as int] - old(self).cnt[e as int],
            ),
            final(self).lists@ == old(self).lists@.update(
                s as int,
                old(self).lists@[s as int].remove(old(self).place@[e as int].1),
            ),
            forall|t: int, c: int|
                #![trigger final(self).val(t, c)]
                final(self).val(t, c) == (if t == s && c == old(self).cell_of[e as int] {
                    (0int, 0int, 0int)
                } else {
                    old(self).val(t, c)
                }),
    {
        let ghost o = *self;
        let ghost si = s as int;
        let ghost ei = e as int;
        let ghost at = self.place@[ei].1;
        let ghost q = self.lists@[si];
        let ghost n_spare = self.spare@.len() as int;
        proof {
            assert(self.placed(ei));
            assert(self.linked(si, at));
            assert(self.keyed(si, at));
            assert(self.headed(si));
            if at > 0 {
                assert(self.linked(si, at - 1));
            }
            if at + 1 < q.len() {
                assert(self.linked(si, at + 1));
            }
        }
        let p = self.prev[e];
        let nx = self.next[e];
        if p == NIL {
            self.head[s as usize] = nx;
        } else {
            self.next[p as usize] = nx;
        }
        if nx != NIL {
            self.prev[nx as usize] = p;
        }
        let ghost c0 = self.cell_of[ei] as int;
        let k = Self::key(s, self.cell_of[e]);
        let gone = self.agg.remove(k);
        self.next[e] = self.free;
        self.free = e as i32;
        self.lists = Ghost(self.lists@.update(si, q.remove(at)));
        self.spare = Ghost(self.spare@.push(ei));
        self.loads = Ghost(self.loads@.update(si, self.loads@[si] - self.cnt[ei]));
        self.place = Ghost(
            Seq::new(
                self.place@.len(),
                |x: int|
                    if x == ei {
                        (-1int, n_spare)
                    } else if self.place@[x].0 == si && self.place@[x].1 > at {
                        (si, self.place@[x].1 - 1)
                    } else {
                        self.place@[x]
                    },
            ),
        );
        proof {
            assert forall|t: int| 0 <= t < self.cap implies #[trigger] self.headed(t) by {
                assert(o.headed(t));
            }
            assert forall|t: int, i: int|
                0 <= t < self.cap && 0 <= i < self.lists@[t].len() implies #[trigger] self.linked(
                t,
                i,
            ) by {
                let j = if t == si && i >= at {
                    i + 1
                } else {
                    i
                };
                assert(self.lists@[t][i] == o.lists@[t][j]);
                assert(o.linked(t, j));
                if t == si {
                    if j > 0 {
                        assert(o.linked(t, j - 1));
                    }
                    if j + 1 < q.len() {
                        assert(o.linked(t, j + 1));
                    }
                }
            }
            assert forall|t: int, i: int|
                0 <= t < self.cap && 0 <= i < self.lists@[t].len() implies #[trigger] self.keyed(
                t,
                i,
            ) by {
                let j = if t == si && i >= at {
                    i + 1
                } else {
                    i
                };
                assert(self.lists@[t][i] == o.lists@[t][j]);
                assert(o.linked(t, j) && o.keyed(t, j));
                lemma_key(t, o.cell_of[o.lists@[t][j]] as int, si, c0);
            }
            assert forall|i: int| 0 <= i < self.spare@.len() implies #[trigger] self.spared(i) by {
                if i < n_spare {
                    assert(o.spared(i));
                } else if n_spare > 0 {
                    assert(o.spared(n_spare - 1));
                }
            }
            assert forall|x: int| 0 <= x < self.n implies #[trigger] self.placed(x) by {
                assert(o.placed(x));
            }
            assert forall|j: u64| #[trigger] self.agg@.contains_key(j) implies self.owned(j) by {
                assert(o.owned(j));
                assert(o.owned(k));
            }
            lemma_total_change(self.cap as int, o.list_len(), self.list_len(), si);
            assert forall|t: int| 0 <= t < self.cap implies #[trigger] self.loads@[t] == sum_over(
                self.lists@[t],
                self.count_fn(),
            ) by {
                assert(o.loads@[t] == sum_over(o.lists@[t], o.count_fn()));
                assert(o.count_fn() =~= self.count_fn());
                if t == si {
                    lemma_sum_remove(q, at, self.count_fn());
                }
            }
            assert forall|t: int, i: int|
                0 <= t < self.cap && 0 <= i < self.lists@[t].len() && self.lists@[t][i]
                    != -1 implies self.cnt[#[trigger] self.lists@[t][i]] >= 1 by {
                let j = if t == si && i >= at {
                    i + 1
                } else {
                    i
                };
                assert(self.lists@[t][i] == o.lists@[t][j]);
                assert(o.linked(t, j));
                assert(o.cnt[o.lists@[t][j]] >= 1);
            }
            assert forall|t: int, c: int| #[trigger]
                self.val(t, c) == (if t == s && c == c0 {
                    (0int, 0int, 0int)
                } else {
                    o.val(t, c)
                }) by {
                if 0 <= t < self.cap && 0 <= c < self.cells {
                    lemma_key(t, c, si, c0);
                }
            }
        }
    }

    /// Setting the numbers of one entry changes the aggregates of its cell and nothing else.
    proof fn lemma_written(&self, o: CellTable, s: int, c: int, e: int, d: int)
        requires
            o.base(),
            o.sparse_links(),
            o.counted(e),
            !o.dense,
            0 <= s < o.cap,
            0 <= c < o.cells,
            0 <= e < o.n,
            o.place@[e].0 == s,
            o.cell_of[e] == c,
            o.agg@.contains_key(key_of(s, c)),
            o.agg@[key_of(s, c)] == e,
            self.cells == o.cells,
            self.dense == o.dense,
            self.cap == o.cap,
            self.agg == o.agg,
            self.cell_of == o.cell_of,
            self.next == o.next,
            self.prev == o.prev,
            self.head == o.head,
            self.n == o.n,
            self.free == o.free,
            self.lists == o.lists,
            self.spare == o.spare,
            self.place == o.place,
            self.cnt.len() == o.cnt.len(),
            self.sx.len() == o.sx.len(),
            self.sy.len() == o.sy.len(),
            forall|x: int|
                0 <= x < o.n && x != e ==> #[trigger] self.at_entry(x) == o.at_entry(x),
            self.cnt[e] == o.cnt[e] + d,
            self.loads@ == o.loads@.update(s, o.loads@[s] + d),
        ensures
            self.base(),
            self.sparse_links(),
            self.counted(e),
            self.cnt[e] >= 1 ==> self.counted(-1),
            forall|t: int, b: int|
                #![trigger self.val(t, b)]
                self.val(t, b) == (if t == s && b == c {
                    self.at_entry(e)
                } else {
                    o.val(t, b)
                }),
    {
        let at = o.place@[e].1;
        assert(o.placed(e));
        assert forall|t: int| 0 <= t < self.cap implies #[trigger] self.headed(t) by {
            assert(o.headed(t));
        }
        assert forall|t: int, i: int|
            0 <= t < self.cap && 0 <= i < self.lists@[t].len() implies #[trigger] self.linked(
            t,
            i,
        ) by {
            assert(o.linked(t, i));
        }
        assert forall|t: int, i: int|
            0 <= t < self.cap && 0 <= i < self.lists@[t].len() implies #[trigger] self.keyed(
            t,
            i,
        ) by {
            assert(o.keyed(t, i));
        }
        assert forall|i: int| 0 <= i < self.spare@.len() implies #[trigger] self.spared(i) by {
            assert(o.spared(i));
        }
        assert forall|x: int| 0 <= x < self.n implies #[trigger] self.placed(x) by {
            assert(o.placed(x));
        }
        assert forall|j: u64| #[trigger] self.agg@.contains_key(j) implies self.owned(j) by {
            assert(o.owned(j));
        }
        assert(self.list_len() =~= o.list_len());
        assert forall|t: int| 0 <= t < self.cap implies #[trigger] self.loads@[t] == sum_over(
            self.lists@[t],
            self.count_fn(),
        ) by {
            assert(o.loads@[t] == sum_over(o.lists@[t], o.count_fn()));
            let q = o.lists@[t];
            if t != s {
                assert forall|i: int| 0 <= i < q.len() implies o.count_fn()(#[trigger] q[i])
                    == self.count_fn()(q[i]) by {
                    assert(o.linked(t, i));
                    assert(q[i] != e);
                    assert(self.at_entry(q[i]) == o.at_entry(q[i]));
                }
                lemma_sum_ext(q, o.count_fn(), self.count_fn());
            } else {
                assert(q.no_duplicates()) by {
                    assert forall|i: int, j: int|
                        0 <= i < q.len() && 0 <= j < q.len() && i != j implies q[i] != q[j] by {
                        assert(o.linked(t, i) && o.linked(t, j));
                    }
                }
                let g = |x: int|
                    if x == e {
                        self.cnt[e] as int
                    } else {
                        o.cnt[x] as int
                    };
                lemma_sum_change(q, at, o.count_fn(), g);
                assert forall|i: int| 0 <= i < q.len() implies g(#[trigger] q[i])
                    == self.count_fn()(q[i]) by {
                    assert(o.linked(t, i));
                    if q[i] != e {
                        assert(self.at_entry(q[i]) == o.at_entry(q[i]));
                    }
                }
                lemma_sum_ext(q, g, self.count_fn());
            }
        }
        assert forall|t: int, i: int|
            0 <= t < self.cap && 0 <= i < self.lists@[t].len() && (self.lists@[t][i] != e
                || self.cnt[e] >= 1) implies self.cnt[#[trigger] self.lists@[t][i]] >= 1 by {
            assert(o.linked(t, i));
            let x = self.lists@[t][i];
            if x != e {
                assert(self.at_entry(x) == o.at_entry(x));
                assert(o.cnt[o.lists@[t][i]] >= 1);
            }
        }
        assert forall|t: int, b: int| #[trigger]
            self.val(t, b) == (if t == s && b == c {
                self.at_entry(e)
            } else {
                o.val(t, b)
            }) by {
            if 0 <= t < self.cap && 0 <= b < self.cells {
                lemma_key(t, b, s, c);
                if o.agg@.contains_key(key_of(t, b)) && !(t == s && b == c) {
                    assert(o.owned(key_of(t, b)));
                    let x = o.agg@[key_of(t, b)] as int;
                    assert(o.placed(x));
                    assert(x != e) by {
                        let (u, i) = o.place@[x];
                        assert(o.keyed(u, i));
                    }
                    assert(self.at_entry(x) == o.at_entry(x));
                }
            }
        }
    }

    /// Add `(dc, dx, dy)` to what `(s, cell)` holds.
    pub fn bump(&mut self, s: u32, cell: u32, dc: i32, dx: i64, dy: i64)
        requires
            old(self).wf(),
            s < old(self).slots(),
            cell < old(self).width(),
            mass_fits(
                (
                    old(self).val(s as int, cell as int).0 + dc,
                    old(self).val(s as int, cell as int).1 + dx,
                    old(self).val(s as int, cell as int).2 + dy,
                ),
            ),
            !old(self).is_dense() ==> old(self).total_load() < MAX_ENTRIES && (old(
                self,
            ).total_load() + 2) * 64 <= usize::MAX,
        ensures
            final(self).wf(),
            did(
                *old(self),
                (TableCall::Bump {
                    s: s as int,
                    cell: cell as int,
                    d: (dc as int, dx as int, dy as int),
                }),
                *final(self),
            ),
            final(self).slots() == old(self).slots(),
            final(self).width() == old(self).width(),
            final(self).is_dense() == old(self).is_dense(),
            forall|t: int, c: int|
                #![trigger final(self).val(t, c)]
                final(self).val(t, c) == (if t == s && c == cell {
                    bumped(
                        old(self).is_dense(),
                        old(self).val(t, c),
                        (dc as int, dx as int, dy as int),
                    )
                } else {
                    old(self).val(t, c)
                }),
            forall|t: int|
                0 <= t < old(self).slots() ==> #[trigger] final(self).load(t) == old(self).load(t)
                    + (if t == s {
                    dc as int
                } else {
                    0
                }),
            final(self).total_load() == old(self).total_load() + dc,
    {
        let ghost o = *self;
        let ghost (si, ci) = (s as int, cell as int);
        if self.dense {
            proof {
                lemma_flat_range(si, ci, self.cells as int, self.cap as int);
                assert(s * self.cells >= 0) by (nonlinear_arith);
            }
            let i: usize = s as usize * self.cells + cell as usize;
            self.cnt[i] = self.cnt[i] + dc;
            self.sx[i] = self.sx[i] + dx;
            self.sy[i] = self.sy[i] + dy;
            self.loads = Ghost(self.loads@.update(si, self.loads@[si] + dc));
            proof {
                assert forall|t: int, c: int| #[trigger]
                    self.val(t, c) == (if t == s && c == cell {
                        bumped(true, o.val(t, c), (dc as int, dx as int, dy as int))
                    } else {
                        o.val(t, c)
                    }) by {
                    if 0 <= t < self.cap && 0 <= c < self.cells {
                        lemma_flat_range(t, c, self.cells as int, self.cap as int);
                        if flat(t, c, self.cells as int) == i {
                            lemma_flat_injective(t, c, si, ci, self.cells as int);
                        }
                    }
                }
                lemma_total_change(
                    self.cap as int,
                    |t: int| o.load(t),
                    |t: int| self.load(t),
                    si,
                );
                assert forall|t: int| 0 <= t < self.cap implies #[trigger] self.loads@[t] == total(
                    self.cells as int,
                    self.row(t),
                ) by {
                    assert(o.loads@[t] == total(o.cells as int, o.row(t)));
                    assert forall|c: int| 0 <= c < self.cells && !(t == s && c
                        == cell) implies #[trigger] o.row(t)(c) == self.row(t)(c) by {
                        assert(self.val(t, c) == o.val(t, c));
                    }
                    if t == s {
                        assert(self.val(t, ci) == bumped(
                            true,
                            o.val(t, ci),
                            (dc as int, dx as int, dy as int),
                        ));
                        lemma_total_change(self.cells as int, o.row(t), self.row(t), ci);
                    } else {
                        lemma_total_ext(self.cells as int, o.row(t), self.row(t));
                    }
                }
            }
            return ;
        }
        let e = self.entry(s, cell);
        let ghost m = *self;
        self.cnt[e] = self.cnt[e] + dc;
        self.sx[e] = self.sx[e] + dx;
        self.sy[e] = self.sy[e] + dy;
        self.loads = Ghost(self.loads@.update(si, self.loads@[si] + dc));
        proof {
            self.lemma_written(m, si, ci, e as int, dc as int);
        }
        if self.cnt[e] == 0 {
            self.release(s, e);
        }
        proof {
            lemma_total_change(self.cap as int, |t: int| o.load(t), |t: int| self.load(t), si);
        }
    }

    /// Forget everything `s` holds.
    pub fn drop_slot(&mut self, s: u32)
        requires
            old(self).wf(),
            s < old(self).slots(),
        ensures
            final(self).wf(),
            did(*old(self), (TableCall::DropSlot { s: s as int }), *final(self)),
            final(self).slots() == old(self).slots(),
            final(self).width() == old(self).width(),
            final(self).is_dense() == old(self).is_dense(),
            forall|t: int, c: int|
                #![trigger final(self).val(t, c)]
                final(self).val(t, c) == (if t == s {
                    (0int, 0int, 0int)
                } else {
                    old(self).val(t, c)
                }),
            forall|t: int|
                0 <= t < old(self).slots() ==> #[trigger] final(self).load(t) == (if t == s {
                    0
                } else {
                    old(self).load(t)
                }),
            final(self).total_load() == old(self).total_load() - old(self).load(s as int),
    {
        let ghost o = *self;
        let ghost si = s as int;
        if self.cells == 0 {
            proof {
                assert(self.loads@[si] == 0);
            }
            return ;
        }
        if self.dense {
            proof {
                lemma_flat_range(si, self.cells - 1, self.cells as int, self.cap as int);
                assert(s * self.cells >= 0) by (nonlinear_arith);
            }
            let b: usize = s as usize * self.cells;
            let mut k: usize = 0;
            while k < self.cells
                invariant
                    k <= self.cells,
                    s < self.cap,
                    b == s * self.cells,
                    b + self.cells <= self.cnt.len(),
                    self.cells == o.cells,
                    self.cap == o.cap,
                    self.loads == o.loads,
                    self.dense == o.dense,
                    self.dense,
                    self.dense_ok(),
                    self.base(),
                    forall|x: int|
                        0 <= x < self.cnt.len() ==> #[trigger] self.at_entry(x) == (if b <= x < b
                            + k {
                            (0int, 0int, 0int)
                        } else {
                            o.at_entry(x)
                        }),
                decreases self.cells - k,
            {
                let ghost p = *self;
                self.cnt[b + k] = 0;
                self.sx[b + k] = 0;
                self.sy[b + k] = 0;
                proof {
                    assert forall|x: int| 0 <= x < self.cnt.len() implies #[trigger] self.at_entry(
                        x,
                    ) == (if b <= x < b + k + 1 {
                        (0int, 0int, 0int)
                    } else {
                        o.at_entry(x)
                    }) by {
                        assert(p.at_entry(x) == (if b <= x < b + k {
                            (0int, 0int, 0int)
                        } else {
                            o.at_entry(x)
                        }));
                    }
                }
                k = k + 1;
            }
            let ghost p = *self;
            self.loads = Ghost(self.loads@.update(si, 0int));
            proof {
                assert forall|t: int, c: int| #[trigger]
                    self.val(t, c) == (if t == s {
                        (0int, 0int, 0int)
                    } else {
                        o.val(t, c)
                    }) by {
                    if 0 <= t < self.cap && 0 <= c < self.cells {
                        let x = flat(t, c, self.cells as int);
                        lemma_flat_range(t, c, self.cells as int, self.cap as int);
                        assert(p.at_entry(x) == (if b <= x < b + self.cells {
                            (0int, 0int, 0int)
                        } else {
                            o.at_entry(x)
                        }));
                        if t != s && b <= x < b + self.cells {
                            lemma_flat_injective(t, c, si, x - b, self.cells as int);
                        }
                    }
                }
                lemma_total_change(
                    self.cap as int,
                    |t: int| o.load(t),
                    |t: int| self.load(t),
                    si,
                );
                assert forall|t: int| 0 <= t < self.cap implies #[trigger] self.loads@[t] == total(
                    self.cells as int,
                    self.row(t),
                ) by {
                    assert(o.loads@[t] == total(o.cells as int, o.row(t)));
                    if t == s {
                        assert forall|c: int| 0 <= c < self.cells implies #[trigger] self.row(t)(c)
                            == 0 by {
                            assert(self.val(t, c) == (0int, 0int, 0int));
                        }
                        lemma_total_zero(self.cells as int, self.row(t));
                    } else {
                        assert forall|c: int| 0 <= c < self.cells implies #[trigger] o.row(t)(c)
                            == self.row(t)(c) by {
                            assert(self.val(t, c) == o.val(t, c));
                        }
                        lemma_total_ext(self.cells as int, o.row(t), self.row(t));
                    }
                }
            }
            return ;
        }
        while self.head[s as usize] != NIL
            invariant
                self.wf(),
                !self.dense,
                self.dense == o.dense,
                s < self.cap,
                self.cells == o.cells,
                self.cap == o.cap,
                si == s,
                forall|t: int, c: int|
                    #![trigger self.val(t, c)]
                    t != s ==> self.val(t, c) == o.val(t, c),
                forall|t: int|
                    0 <= t < self.cap && t != s ==> #[trigger] self.loads@[t] == o.loads@[t],
                self.loads@.len() == self.cap,
            decreases self.lists@[si].len(),
        {
            proof {
                assert(self.headed(si));
                assert(self.lists@[si].len() > 0);
                assert(self.linked(si, 0));
                let e = self.lists@[si][0];
                assert(self.counted(e)) by {
                    assert forall|u: int, j: int|
                        0 <= u < self.cap && 0 <= j < self.lists@[u].len() && self.lists@[u][j]
                            != e implies self.cnt[#[trigger] self.lists@[u][j]] >= 1 by {
                        assert(self.linked(u, j));
                    }
                }
            }
            let e = self.head[s as usize] as usize;
            self.release(s, e);
        }
        proof {
            assert(self.headed(si));
            if self.lists@[si].len() > 0 {
                assert(self.linked(si, 0));
            }
            assert(self.lists@[si].len() == 0);
            assert(self.loads@[si] == sum_over(self.lists@[si], self.count_fn()));
            assert forall|t: int, c: int| #[trigger]
                self.val(t, c) == (if t == s {
                    (0int, 0int, 0int)
                } else {
                    o.val(t, c)
                }) by {
                if t == s && 0 <= c < self.cells && self.agg@.contains_key(key_of(t, c)) {
                    assert(self.owned(key_of(t, c)));
                    let x = self.agg@[key_of(t, c)] as int;
                    assert(self.placed(x));
                    let (u, i) = self.place@[x];
                    assert(self.keyed(u, i));
                    lemma_key(t, c, u, self.cell_of[x] as int);
                }
            }
            lemma_total_change(self.cap as int, |t: int| o.load(t), |t: int| self.load(t), si);
        }
    }

    /// Reset `s` to carry exactly one point at `(x, y)`, in each of `cells`, once even where a
    /// cell is listed twice.
    pub fn set_self(&mut self, s: u32, cells: &Vec<u32>, x: i64, y: i64)
        requires
            old(self).wf(),
            s < old(self).slots(),
            old(self).width() > 0 ==> forall|i: int|
                0 <= i < cells@.len() ==> #[trigger] cells@[i] < old(self).width(),
            !old(self).is_dense() ==> old(self).total_load() - old(self).load(s as int)
                + cells@.len() < MAX_ENTRIES && (old(self).total_load() - old(self).load(s as int)
                + cells@.len() + 2) * 64 <= usize::MAX,
        ensures
            final(self).wf(),
            did(
                *old(self),
                (TableCall::SetSelf { s: s as int, cells: cells@, x: x as int, y: y as int }),
                *final(self),
            ),
            final(self).slots() == old(self).slots(),
            final(self).width() == old(self).width(),
            final(self).is_dense() == old(self).is_dense(),
            forall|t: int, c: int|
                #![trigger final(self).val(t, c)]
                final(self).val(t, c) == (if t == s {
                    own_mass(old(self).width(), cells@, x as int, y as int, c)
                } else {
                    old(self).val(t, c)
                }),
            forall|t: int|
                0 <= t < old(self).slots() ==> #[trigger] final(self).load(t) == (if t == s {
                    set_load(old(self).width(), cells@)
                } else {
                    old(self).load(t)
                }),
            final(self).total_load() == old(self).total_load() - old(self).load(s as int)
                + set_load(old(self).width(), cells@),
    {
        let ghost o = *self;
        let ghost si = s as int;
        self.drop_slot(s);
        if self.cells == 0 {
            return ;
        }
        let ghost d = *self;
        let mut i: usize = 0;
        proof {
            assert(cells@.take(0) =~= Seq::<u32>::empty());
            assert(cells@.take(0).to_set() =~= Set::<u32>::empty());
            assert forall|t: int| 0 <= t < o.cap implies #[trigger] self.loads@[t] == (if t == s {
                0
            } else {
                o.loads@[t]
            }) by {
                assert(self.load(t) == (if t == s {
                    0
                } else {
                    o.load(t)
                }));
            }
        }
        while i < cells.len()
            invariant
                i <= cells@.len(),
                self.wf(),
                self.cells > 0,
                self.cells == o.cells,
                self.cap == o.cap,
                self.dense == o.dense,
                d.cap == o.cap,
                s < self.cap,
                si == s,
                forall|j: int| 0 <= j < cells@.len() ==> #[trigger] cells@[j] < self.cells,
                !self.dense ==> d.total_load() + cells@.len() < MAX_ENTRIES && (d.total_load()
                    + cells@.len() + 2) * 64 <= usize::MAX,
                forall|t: int, c: int|
                    #![trigger self.val(t, c)]
                    self.val(t, c) == (if t == s {
                        own_mass(o.cells as int, cells@.take(i as int), x as int, y as int, c)
                    } else {
                        o.val(t, c)
                    }),
                forall|t: int|
                    0 <= t < o.cap ==> #[trigger] self.loads@[t] == (if t == s {
                        cells@.take(i as int).to_set().len() as int
                    } else {
                        o.loads@[t]
                    }),
                self.total_load() == d.total_load() + cells@.take(i as int).to_set().len(),
                cells@.take(i as int).to_set().len() <= i,
            decreases cells@.len() - i,
        {
            let ghost p = *self;
            let ghost q = cells@.take(i as int);
            let c = cells[i];
            let ghost had = q.contains(c);
            proof {
                assert(cells@.take(i + 1) =~= q.push(c));
                assert(q.push(c).to_set() =~= q.to_set().insert(c)) by {
                    assert forall|b: u32| #[trigger] q.push(c).to_set().contains(b)
                        == q.to_set().insert(c).contains(b) by {
                        if q.push(c).contains(b) {
                            let k = q.push(c).index_of(b);
                            if k < q.len() {
                                assert(q[k] == b);
                            }
                        }
                        if q.contains(b) {
                            let k = q.index_of(b);
                            assert(q.push(c)[k] == b);
                        }
                        assert(q.push(c)[q.len() as int] == c);
                    }
                }
                vstd::seq_lib::seq_to_set_is_finite(q);
                assert(holds(q, c as int) == had) by {
                    if had {
                        assert(q[q.index_of(c)] == c);
                    }
                }
                assert(self.val(si, c as int) == own_mass(
                    o.cells as int,
                    q,
                    x as int,
                    y as int,
                    c as int,
                ));
            }
            if self.count(s, c) == 0 {
                self.bump(s, c, 1, x, y);
            }
            proof {
                assert forall|t: int, b: int| #[trigger]
                    self.val(t, b) == (if t == s {
                        own_mass(o.cells as int, cells@.take(i + 1), x as int, y as int, b)
                    } else {
                        o.val(t, b)
                    }) by {
                    lemma_take_contains(cells@, i as int, b);
                    assert(p.val(t, b) == (if t == s {
                        own_mass(o.cells as int, cells@.take(i as int), x as int, y as int, b)
                    } else {
                        o.val(t, b)
                    }));
                }
                assert forall|t: int| 0 <= t < o.cap implies #[trigger] self.loads@[t] == (if t
                    == s {
                    cells@.take(i + 1).to_set().len() as int
                } else {
                    o.loads@[t]
                }) by {
                    assert(p.loads@[t] == p.load(t));
                    if !had {
                        assert(self.load(t) == p.load(t) + (if t == s {
                            1int
                        } else {
                            0
                        }));
                    }
                }
            }
            i = i + 1;
        }
        proof {
            assert(cells@.take(cells@.len() as int) =~= cells@);
        }
    }

    /// Apply one point's `cells` to every node on `chain`: once for each way to pick a node and a
    /// cell from the two lists.
    pub fn walk(&mut self, chain: &Vec<u32>, cells: &Vec<u32>, dc: i32, dx: i64, dy: i64)
        requires
            old(self).wf(),
            old(self).width() > 0 ==> walkable(
                *old(self),
                chain@,
                cells@,
                (dc as int, dx as int, dy as int),
            ),
        ensures
            final(self).wf(),
            did(
                *old(self),
                (TableCall::Walk {
                    chain: chain@,
                    cells: cells@,
                    d: (dc as int, dx as int, dy as int),
                }),
                *final(self),
            ),
            final(self).slots() == old(self).slots(),
            final(self).width() == old(self).width(),
            final(self).is_dense() == old(self).is_dense(),
            forall|t: int, c: int|
                #![trigger final(self).val(t, c)]
                final(self).val(t, c) == (if old(self).width() > 0 {
                    repeated(
                        old(self).is_dense(),
                        old(self).val(t, c),
                        (dc as int, dx as int, dy as int),
                        hits(chain@, t) * hits(cells@, c),
                    )
                } else {
                    old(self).val(t, c)
                }),
            forall|t: int|
                0 <= t < old(self).slots() ==> #[trigger] final(self).load(t) == old(self).load(t)
                    + (if old(self).width() > 0 {
                    hits(chain@, t) * (dc * cells@.len())
                } else {
                    0
                }),
    {
        if self.cells == 0 {
            return ;
        }
        let ghost o = *self;
        let ghost d = (dc as int, dx as int, dy as int);
        let ghost n = cells@.len() as int;
        let ghost whole = dc * n;
        let mut i: usize = 0;
        proof {
            assert(chain@.take(0) =~= Seq::<u32>::empty());
            assert forall|t: int, c: int| #[trigger] self.val(t, c) == repeated(
                o.dense,
                o.val(t, c),
                d,
                hits(chain@.take(0), t) * hits(cells@, c),
            ) by {
                assert(hits(chain@.take(0), t) * hits(cells@, c) == 0) by (nonlinear_arith)
                    requires
                        hits(chain@.take(0), t) == 0,
                ;
            }
            assert forall|t: int| hits(chain@.take(0), t) * whole == 0 by {
                assert(hits(chain@.take(0), t) * whole == 0) by (nonlinear_arith)
                    requires
                        hits(chain@.take(0), t) == 0,
                ;
            }
            assert(0 * whole == 0);
        }
        while i < chain.len()
            invariant
                i <= chain@.len(),
                n == cells@.len(),
                whole == dc * n,
                d == (dc as int, dx as int, dy as int),
                self.wf(),
                o.width() > 0,
                walkable(o, chain@, cells@, d),
                self.slots() == o.slots(),
                self.width() == o.width(),
                self.dense == o.dense,
                forall|t: int, c: int| #[trigger]
                    self.val(t, c) == repeated(
                        o.dense,
                        o.val(t, c),
                        d,
                        hits(chain@.take(i as int), t) * hits(cells@, c),
                    ),
                forall|t: int|
                    0 <= t < o.slots() ==> #[trigger] self.load(t) == o.load(t) + hits(
                        chain@.take(i as int),
                        t,
                    ) * whole,
                self.total_load() == o.total_load() + i * whole,
            decreases chain@.len() - i,
        {
            let t = chain[i];
            let ghost ti = t as int;
            let ghost done = chain@.take(i as int);
            let mut j: usize = 0;
            proof {
                assert(cells@.take(0) =~= Seq::<u32>::empty());
                assert(dc * 0 == 0);
            }
            while j < cells.len()
                invariant
                    i < chain@.len(),
                    j <= cells@.len(),
                    n == cells@.len(),
                    whole == dc * n,
                    d == (dc as int, dx as int, dy as int),
                    t == chain@[i as int],
                    ti == t,
                    done == chain@.take(i as int),
                    self.wf(),
                    o.width() > 0,
                    walkable(o, chain@, cells@, d),
                    self.slots() == o.slots(),
                    self.width() == o.width(),
                    self.dense == o.dense,
                    forall|u: int, c: int| #[trigger]
                        self.val(u, c) == repeated(
                            o.dense,
                            o.val(u, c),
                            d,
                            hits(done, u) * hits(cells@, c) + (if u == ti {
                                hits(cells@.take(j as int), c)
                            } else {
                                0
                            }),
                        ),
                    forall|u: int|
                        0 <= u < o.slots() ==> #[trigger] self.load(u) == o.load(u) + hits(done, u)
                            * whole + (if u == ti {
                            dc * j
                        } else {
                            0
                        }),
                    self.total_load() == o.total_load() + i * whole + dc * j,
                decreases cells@.len() - j,
            {
                let c = cells[j];
                let ghost ci = c as int;
                let ghost r = hits(done, ti) * hits(cells@, ci) + hits(cells@.take(j as int), ci);
                let ghost before = *self;
                proof {
                    lemma_hits_step(chain@, i as int, ti);
                    lemma_hits_step(cells@, j as int, ci);
                    lemma_hits_part(chain@, i as int, ti);
                    lemma_hits_part(chain@, i + 1, ti);
                    lemma_hits_part(cells@, j as int, ci);
                    lemma_hits_part(cells@, j + 1, ci);
                    lemma_rounds(
                        hits(done, ti),
                        hits(chain@, ti),
                        hits(cells@.take(j as int), ci),
                        hits(cells@, ci),
                    );
                    let m = o.val(ti, ci);
                    assert(repeats_fit(o.dense, m, d, hits(chain@, ti) * hits(cells@, ci)));
                    assert(self.val(ti, ci) == repeated(o.dense, m, d, r));
                    assert(mass_fits(added(repeated(o.dense, m, d, r), d)));
                    lemma_on_the_way(i as int, chain@.len() as int, j as int, n, dc as int);
                }
                self.bump(t, c, dc, dx, dy);
                proof {
                    assert forall|u: int, b: int| #[trigger] self.val(u, b) == repeated(
                        o.dense,
                        o.val(u, b),
                        d,
                        hits(done, u) * hits(cells@, b) + (if u == ti {
                            hits(cells@.take(j + 1), b)
                        } else {
                            0
                        }),
                    ) by {
                        lemma_hits_step(cells@, j as int, b);
                        assert(before.val(u, b) == repeated(
                            o.dense,
                            o.val(u, b),
                            d,
                            hits(done, u) * hits(cells@, b) + (if u == ti {
                                hits(cells@.take(j as int), b)
                            } else {
                                0
                            }),
                        ));
                    }
                    assert(dc * (j + 1) == dc * j + dc) by (nonlinear_arith);
                    assert forall|u: int| 0 <= u < o.slots() implies #[trigger] self.load(u)
                        == o.load(u) + hits(done, u) * whole + (if u == ti {
                        dc * (j + 1)
                    } else {
                        0
                    }) by {
                        assert(before.load(u) == o.load(u) + hits(done, u) * whole + (if u == ti {
                            dc * j
                        } else {
                            0
                        }));
                    }
                }
                j = j + 1;
            }
            proof {
                assert(cells@.take(cells@.len() as int) =~= cells@);
                let next = chain@.take(i + 1);
                assert forall|u: int, c: int| #[trigger] self.val(u, c) == repeated(
                    o.dense,
                    o.val(u, c),
                    d,
                    hits(next, u) * hits(cells@, c),
                ) by {
                    lemma_hits_step(chain@, i as int, u);
                    let (h, k) = (hits(done, u), hits(cells@, c));
                    assert((h + 1) * k == h * k + k) by (nonlinear_arith);
                }
                assert forall|u: int| 0 <= u < o.slots() implies #[trigger] self.load(u) == o.load(
                    u,
                ) + hits(next, u) * whole by {
                    lemma_hits_step(chain@, i as int, u);
                    let h = hits(done, u);
                    assert((h + 1) * whole == h * whole + whole) by (nonlinear_arith);
                }
                assert((i + 1) * whole == i * whole + whole) by (nonlinear_arith);
            }
            i = i + 1;
        }
        proof {
            assert(chain@.take(chain@.len() as int) =~= chain@);
        }
    }

    /// Apply one point's `cells` to every node on `chain`, each of them once.
    pub(crate) fn walk_once(
        &mut self,
        chain: &Vec<u32>,
        cells: &Vec<u32>,
        dc: i32,
        dx: i64,
        dy: i64,
    )
        requires
            old(self).wf(),
            old(self).width() > 0 ==> can_walk(*old(self), chain@, cells@, dc as int, dx as int, dy as int),
        ensures
            final(self).wf(),
            final(self).slots() == old(self).slots(),
            final(self).width() == old(self).width(),
            final(self).is_dense() == old(self).is_dense(),
            forall|t: int, c: int|
                #![trigger final(self).val(t, c)]
                final(self).val(t, c) == (if old(self).width() > 0 && holds(chain@, t) && holds(
                    cells@,
                    c,
                ) {
                    bumped(
                        old(self).is_dense(),
                        old(self).val(t, c),
                        (dc as int, dx as int, dy as int),
                    )
                } else {
                    old(self).val(t, c)
                }),
            forall|t: int|
                0 <= t < old(self).slots() ==> #[trigger] final(self).load(t) == old(self).load(t)
                    + (if old(self).width() > 0 && holds(chain@, t) {
                    dc * cells@.len()
                } else {
                    0
                }),
    {
        let ghost o = *self;
        let ghost d = (dc as int, dx as int, dy as int);
        proof {
            if o.width() > 0 {
                assert forall|t: int, c: int| repeats_fit(
                    o.is_dense(),
                    #[trigger] o.val(t, c),
                    d,
                    hits(chain@, t) * hits(cells@, c),
                ) by {
                    lemma_hits_once(chain@, t);
                    lemma_hits_once(cells@, c);
                    lemma_once(o.is_dense(), o.val(t, c), d, hits(chain@, t), hits(cells@, c));
                }
            }
        }
        self.walk(chain, cells, dc, dx, dy);
        proof {
            if o.width() > 0 {
                assert forall|t: int, c: int| #[trigger] self.val(t, c) == (if holds(chain@, t) && holds(
                    cells@,
                    c,
                ) {
                    bumped(o.is_dense(), o.val(t, c), d)
                } else {
                    o.val(t, c)
                }) by {
                    lemma_hits_once(chain@, t);
                    lemma_hits_once(cells@, c);
                    lemma_repeated_once(o.is_dense(), o.val(t, c), d);
                    let (h, k) = (hits(chain@, t), hits(cells@, c));
                    assert(h == 0 || k == 0 ==> h * k == 0) by (nonlinear_arith);
                    assert(h == 1 && k == 1 ==> h * k == 1) by (nonlinear_arith);
                    assert(self.val(t, c) == repeated(o.is_dense(), o.val(t, c), d, h * k));
                }
                assert forall|t: int| 0 <= t < o.slots() implies #[trigger] self.load(t) == o.load(t)
                    + (if holds(chain@, t) {
                    dc * cells@.len()
                } else {
                    0
                }) by {
                    lemma_hits_once(chain@, t);
                    let w = dc * cells@.len();
                    assert(0 * w == 0 && 1 * w == w);
                }
            }
        }
    }

    /// Apply every move to node `t`.
    fn apply(&mut self, t: u32, moved: &Vec<(u32, i32, i64, i64)>)
        requires
            old(self).wf(),
            t < old(self).cap,
            forall|j: int| 0 <= j < moved@.len() ==> #[trigger] moved@[j].0 < old(self).cells,
            forall|i: int, j: int|
                0 <= i < j < moved@.len() ==> #[trigger] moved@[i].0 != #[trigger] moved@[j].0,
            forall|j: int|
                0 <= j < moved@.len() ==> #[trigger] move_fits(
                    old(self).val(t as int, moved@[j].0 as int),
                    moved@[j],
                ),
            same_sign(moved@),
            !old(self).dense ==> load_fits(old(self).total_load()) && load_fits(
                old(self).total_load() + gain(moved@),
            ),
        ensures
            final(self).wf(),
            final(self).cap == old(self).cap,
            final(self).cells == old(self).cells,
            final(self).dense == old(self).dense,
            forall|u: int, c: int|
                #![trigger final(self).val(u, c)]
                final(self).val(u, c) == (if u == t && listed(moved@, c) {
                    bumped(old(self).dense, old(self).val(u, c), delta(moved@, c))
                } else {
                    old(self).val(u, c)
                }),
            forall|u: int|
                0 <= u < old(self).cap ==> #[trigger] final(self).loads@[u] == old(self).loads@[u]
                    + (if u == t {
                    gain(moved@)
                } else {
                    0
                }),
            final(self).total_load() == old(self).total_load() + gain(moved@),
    {
        let ghost o = *self;
        let mut j: usize = 0;
        proof {
            assert(moved@.take(0) =~= Seq::<(u32, i32, i64, i64)>::empty());
        }
        while j < moved.len()
            invariant
                j <= moved@.len(),
                self.wf(),
                self.cap == o.cap,
                self.cells == o.cells,
                self.dense == o.dense,
                t < self.cap,
                forall|i: int| 0 <= i < moved@.len() ==> #[trigger] moved@[i].0 < o.cells,
                forall|i: int, k: int|
                    0 <= i < k < moved@.len() ==> #[trigger] moved@[i].0 != #[trigger] moved@[k].0,
                forall|i: int|
                    0 <= i < moved@.len() ==> #[trigger] move_fits(
                        o.val(t as int, moved@[i].0 as int),
                        moved@[i],
                    ),
                same_sign(moved@),
                !o.dense ==> load_fits(o.total_load()) && load_fits(o.total_load() + gain(moved@)),
                forall|u: int, c: int|
                    #![trigger self.val(u, c)]
                    self.val(u, c) == (if u == t && listed(moved@.take(j as int), c) {
                        bumped(o.dense, o.val(u, c), delta(moved@, c))
                    } else {
                        o.val(u, c)
                    }),
                forall|u: int|
                    0 <= u < o.cap ==> #[trigger] self.loads@[u] == o.loads@[u] + (if u == t {
                        gain(moved@.take(j as int))
                    } else {
                        0
                    }),
                self.total_load() == o.total_load() + gain(moved@.take(j as int)),
            decreases moved@.len() - j,
        {
            let ghost p = *self;
            let (cell, c, x, y) = moved[j];
            proof {
                let tk = moved@.take(j + 1);
                assert(tk.drop_last() =~= moved@.take(j as int));
                assert(tk.last() == moved@[j as int]);
                lemma_gain_between(moved@, j as int);
                assert(moved@[j as int].0 == cell);
                assert(move_fits(o.val(t as int, moved@[j as int].0 as int), moved@[j as int]));
                assert(!listed(moved@.take(j as int), cell as int)) by {
                    if listed(moved@.take(j as int), cell as int) {
                        let i = choose|i: int|
                            0 <= i < j && #[trigger] moved@.take(j as int)[i].0 == cell;
                        assert(moved@[i].0 == moved@[j as int].0);
                    }
                }
                assert(self.val(t as int, cell as int) == o.val(t as int, cell as int));
            }
            self.bump(t, cell, c, x, y);
            proof {
                assert forall|u: int, b: int| #[trigger]
                    self.val(u, b) == (if u == t && listed(moved@.take(j + 1), b) {
                        bumped(o.dense, o.val(u, b), delta(moved@, b))
                    } else {
                        o.val(u, b)
                    }) by {
                    lemma_take_listed(moved@, j as int, b);
                    assert(p.val(u, b) == (if u == t && listed(moved@.take(j as int), b) {
                        bumped(o.dense, o.val(u, b), delta(moved@, b))
                    } else {
                        o.val(u, b)
                    }));
                    if b == cell {
                        assert(moved@[j as int].0 == b);
                        let i = move_index(moved@, b);
                        assert(i == j);
                    }
                }
                assert forall|u: int| 0 <= u < o.cap implies #[trigger] self.loads@[u]
                    == o.loads@[u] + (if u == t {
                    gain(moved@.take(j + 1))
                } else {
                    0
                }) by {
                    assert(self.load(u) == p.load(u) + (if u == t {
                        c as int
                    } else {
                        0
                    }));
                    assert(p.loads@[u] == p.load(u));
                }
            }
            j = j + 1;
        }
        proof {
            assert(moved@.take(moved@.len() as int) =~= moved@);
        }
    }

    /// Apply every move to every node on `chain`.
    fn spread(&mut self, chain: &Vec<u32>, moved: &Vec<(u32, i32, i64, i64)>)
        requires
            old(self).wf(),
            chain@.no_duplicates(),
            forall|i: int| 0 <= i < chain@.len() ==> #[trigger] chain@[i] < old(self).cap,
            forall|j: int| 0 <= j < moved@.len() ==> #[trigger] moved@[j].0 < old(self).cells,
            forall|i: int, j: int|
                0 <= i < j < moved@.len() ==> #[trigger] moved@[i].0 != #[trigger] moved@[j].0,
            forall|t: int, j: int|
                holds(chain@, t) && 0 <= j < moved@.len() ==> #[trigger] move_fits(
                    old(self).val(t, moved@[j].0 as int),
                    moved@[j],
                ),
            same_sign(moved@),
            !old(self).dense ==> load_fits(old(self).total_load()) && load_fits(
                old(self).total_load() + chain@.len() * gain(moved@),
            ),
        ensures
            final(self).wf(),
            final(self).cap == old(self).cap,
            final(self).cells == old(self).cells,
            final(self).dense == old(self).dense,
            forall|u: int, c: int|
                #![trigger final(self).val(u, c)]
                final(self).val(u, c) == (if holds(chain@, u) && listed(moved@, c) {
                    bumped(old(self).dense, old(self).val(u, c), delta(moved@, c))
                } else {
                    old(self).val(u, c)
                }),
            forall|u: int|
                0 <= u < old(self).cap ==> #[trigger] final(self).loads@[u] == old(self).loads@[u]
                    + (if holds(chain@, u) {
                    gain(moved@)
                } else {
                    0
                }),
            final(self).total_load() == old(self).total_load() + chain@.len() * gain(moved@),
    {
        let ghost o = *self;
        let ghost g = gain(moved@);
        let mut i: usize = 0;
        while i < chain.len()
            invariant
                i <= chain@.len(),
                self.wf(),
                self.cap == o.cap,
                self.cells == o.cells,
                self.dense == o.dense,
                g == gain(moved@),
                chain@.no_duplicates(),
                forall|k: int| 0 <= k < chain@.len() ==> #[trigger] chain@[k] < o.cap,
                forall|j: int| 0 <= j < moved@.len() ==> #[trigger] moved@[j].0 < o.cells,
                forall|k: int, j: int|
                    0 <= k < j < moved@.len() ==> #[trigger] moved@[k].0 != #[trigger] moved@[j].0,
                forall|t: int, j: int|
                    holds(chain@, t) && 0 <= j < moved@.len() ==> #[trigger] move_fits(
                        o.val(t, moved@[j].0 as int),
                        moved@[j],
                    ),
                same_sign(moved@),
                !o.dense ==> load_fits(o.total_load()) && load_fits(
                    o.total_load() + chain@.len() * g,
                ),
                forall|u: int, c: int|
                    #![trigger self.val(u, c)]
                    self.val(u, c) == (if holds(chain@.take(i as int), u) && listed(moved@, c) {
                        bumped(o.dense, o.val(u, c), delta(moved@, c))
                    } else {
                        o.val(u, c)
                    }),
                forall|u: int|
                    0 <= u < o.cap ==> #[trigger] self.loads@[u] == o.loads@[u] + (if holds(
                        chain@.take(i as int),
                        u,
                    ) {
                        g
                    } else {
                        0
                    }),
                self.total_load() == o.total_load() + i * g,
            decreases chain@.len() - i,
        {
            let ghost p = *self;
            let t = chain[i];
            proof {
                assert(i * g + g == (i + 1) * g) by (nonlinear_arith);
                if g >= 0 {
                    assert(i * g <= chain@.len() * g && (i + 1) * g <= chain@.len() * g)
                        by (nonlinear_arith)
                        requires
                            g >= 0,
                            i + 1 <= chain@.len(),
                    ;
                } else {
                    assert(i * g <= 0 && (i + 1) * g <= 0) by (nonlinear_arith)
                        requires
                            g < 0,
                            0 <= i,
                    ;
                }
                assert(!holds(chain@.take(i as int), t as int)) by {
                    if holds(chain@.take(i as int), t as int) {
                        let k = choose|k: int|
                            0 <= k < i && #[trigger] chain@.take(i as int)[k] == t;
                        assert(chain@[k] == chain@[i as int]);
                    }
                }
                assert(holds(chain@, t as int)) by {
                    assert(chain@[i as int] == t);
                }
                assert forall|j: int| 0 <= j < moved@.len() implies #[trigger] move_fits(
                    self.val(t as int, moved@[j].0 as int),
                    moved@[j],
                ) by {
                    assert(move_fits(o.val(t as int, moved@[j].0 as int), moved@[j]));
                }
            }
            self.apply(t, moved);
            proof {
                assert forall|u: int, c: int| #[trigger]
                    self.val(u, c) == (if holds(chain@.take(i + 1), u) && listed(moved@, c) {
                        bumped(o.dense, o.val(u, c), delta(moved@, c))
                    } else {
                        o.val(u, c)
                    }) by {
                    lemma_take_contains(chain@, i as int, u);
                    assert(p.val(u, c) == (if holds(chain@.take(i as int), u) && listed(
                        moved@,
                        c,
                    ) {
                        bumped(o.dense, o.val(u, c), delta(moved@, c))
                    } else {
                        o.val(u, c)
                    }));
                }
                assert forall|u: int| 0 <= u < o.cap implies #[trigger] self.loads@[u]
                    == o.loads@[u] + (if holds(chain@.take(i + 1), u) {
                    g
                } else {
                    0
                }) by {
                    lemma_take_contains(chain@, i as int, u);
                    assert(p.loads@[u] == o.loads@[u] + (if holds(chain@.take(i as int), u) {
                        g
                    } else {
                        0
                    }));
                }
            }
            i = i + 1;
        }
        proof {
            assert(chain@.take(chain@.len() as int) =~= chain@);
        }
    }

    /// Move a whole subtree's mass on (`sign` 1) or off (`sign` -1) every node of `chain`.
    ///
    /// Costs the cells that the subtree under `node` actually holds.
    pub fn move_subtree(&mut self, chain: &Vec<u32>, node: u32, sign: i32)
        requires
            old(self).wf(),
            node < old(self).slots(),
            sign == 1 || sign == -1,
            old(self).width() > 0 ==> can_move(*old(self), chain@, node as int, sign as int),
        ensures
            final(self).wf(),
            did(
                *old(self),
                (TableCall::MoveSubtree { chain: chain@, node: node as int, sign: sign as int }),
                *final(self),
            ),
            final(self).slots() == old(self).slots(),
            final(self).width() == old(self).width(),
            final(self).is_dense() == old(self).is_dense(),
            forall|t: int, c: int|
                #![trigger final(self).val(t, c)]
                final(self).val(t, c) == (if holds(chain@, t) && old(self).val(node as int, c).0
                    != 0 {
                    bumped(
                        old(self).is_dense(),
                        old(self).val(t, c),
                        scaled(sign as int, old(self).val(node as int, c)),
                    )
                } else {
                    old(self).val(t, c)
                }),
            forall|t: int|
                0 <= t < old(self).slots() ==> #[trigger] final(self).load(t) == old(self).load(t)
                    + (if holds(chain@, t) {
                    times(sign as int, old(self).load(node as int))
                } else {
                    0
                }),
    {
        let ghost o = *self;
        let ghost ni = node as int;
        if self.cells == 0 {
            proof {
                assert(self.loads@[ni] == 0);
            }
            return ;
        }
        let mut moved: Vec<(u32, i32, i64, i64)> = Vec::new();
        if self.dense {
            let mut k: u32 = 0;
            proof {
                assert(o.loads@[ni] == total(o.cells as int, o.row(ni)));
            }
            while (k as usize) < self.cells
                invariant
                    k <= self.cells <= MAX_CELLS,
                    *self == o,
                    o.wf(),
                    o.dense,
                    node < self.cap,
                    ni == node,
                    sign == 1 || sign == -1,
                    forall|c: int| sound_mass(#[trigger] o.val(ni, c)),
                    forall|j: int|
                        0 <= j < moved@.len() ==> (#[trigger] moved@[j]).0 < k && moved@[j].1 != 0
                            && move_of(moved@[j], sign as int, o.val(ni, moved@[j].0 as int)),
                    forall|i: int, j: int|
                        0 <= i < j < moved@.len() ==> #[trigger] moved@[i].0
                            < #[trigger] moved@[j].0,
                    forall|c: int|
                        0 <= c < k && (#[trigger] o.val(ni, c)).0 != 0 ==> listed(moved@, c),
                    gain(moved@) == times(sign as int, total(k as int, o.row(ni))),
                decreases self.cells - k,
            {
                proof {
                    lemma_flat_range(ni, k as int, self.cells as int, self.cap as int);
                    assert(node * self.cells >= 0) by (nonlinear_arith);
                    assert(sound_mass(o.val(ni, k as int)));
                }
                let ghost was = moved@;
                let x: usize = node as usize * self.cells + k as usize;
                let c = self.cnt[x];
                proof {
                    assert(total(k + 1, o.row(ni)) == total(k as int, o.row(ni)) + o.row(ni)(
                        k as int,
                    ));
                }
                if c != 0 {
                    let m = if sign == 1 {
                        (k, c, self.sx[x], self.sy[x])
                    } else {
                        (k, -c, -self.sx[x], -self.sy[x])
                    };
                    moved.push(m);
                    proof {
                        assert(moved@.drop_last() =~= was);
                        assert(moved@[was.len() as int] == m);
                        assert forall|b: int|
                            0 <= b < k + 1 && (#[trigger] o.val(ni, b)).0 != 0 implies listed(
                            moved@,
                            b,
                        ) by {
                            if b < k {
                                let j = move_index(was, b);
                                assert(was[j].0 == b);
                                assert(moved@[j].0 == b);
                            } else {
                                assert(moved@[was.len() as int].0 == b);
                            }
                        }
                    }
                }
                k = k + 1;
            }
        } else {
            let mut e = self.head[node as usize];
            let ghost q = o.lists@[ni];
            let ghost mut i = 0int;
            proof {
                assert(o.headed(ni));
                assert(q.take(0) =~= Seq::<int>::empty());
            }
            while e != NIL
                invariant
                    *self == o,
                    o.wf(),
                    !o.dense,
                    node < self.cap,
                    ni == node,
                    q == o.lists@[ni],
                    sign == 1 || sign == -1,
                    forall|c: int| sound_mass(#[trigger] o.val(ni, c)),
                    0 <= i <= q.len(),
                    moved@.len() == i,
                    e == (if i < q.len() {
                        q[i]
                    } else {
                        NIL as int
                    }),
                    forall|j: int|
                        0 <= j < i ==> (#[trigger] moved@[j]).0 == o.cell_of[q[j]] && moved@[j].1
                            != 0 && move_of(
                            moved@[j],
                            sign as int,
                            o.val(ni, moved@[j].0 as int),
                        ),
                    gain(moved@) == times(sign as int, sum_over(q.take(i), o.count_fn())),
                decreases q.len() - i,
            {
                let ghost was = moved@;
                proof {
                    if i < q.len() {
                        assert(o.linked(ni, i) && o.keyed(ni, i));
                        assert(o.cnt[o.lists@[ni][i]] >= 1);
                        assert(o.val(ni, o.cell_of[q[i]] as int) == o.at_entry(q[i]));
                        if i + 1 < q.len() {
                            assert(o.linked(ni, i + 1));
                        }
                        assert(q.take(i + 1).drop_last() =~= q.take(i));
                        assert(q.take(i + 1).last() == q[i]);
                    }
                }
                let x = e as usize;
                let m = if sign == 1 {
                    (self.cell_of[x], self.cnt[x], self.sx[x], self.sy[x])
                } else {
                    (self.cell_of[x], -self.cnt[x], -self.sx[x], -self.sy[x])
                };
                moved.push(m);
                proof {
                    assert(moved@.drop_last() =~= was);
                    i = i + 1;
                }
                e = self.next[x];
            }
            proof {
                if i < q.len() {
                    assert(o.linked(ni, i));
                }
                assert(i == q.len());
                assert(q.take(i) =~= q);
                assert(o.loads@[ni] == sum_over(o.lists@[ni], o.count_fn()));
                assert forall|c: int|
                    0 <= c < o.cells && (#[trigger] o.val(ni, c)).0 != 0 implies listed(
                    moved@,
                    c,
                ) by {
                    assert(o.owned(key_of(ni, c)));
                    let x = o.agg@[key_of(ni, c)] as int;
                    assert(o.placed(x));
                    let (u, j) = o.place@[x];
                    assert(o.keyed(u, j));
                    lemma_key(ni, c, u, o.cell_of[x] as int);
                    assert(moved@[j].0 == c);
                }
                assert forall|a: int, b: int| 0 <= a < b < moved@.len() implies #[trigger] moved@[a].0
                    != #[trigger] moved@[b].0 by {
                    assert(o.linked(ni, a) && o.keyed(ni, a));
                    assert(o.linked(ni, b) && o.keyed(ni, b));
                }
                assert forall|j: int| 0 <= j < moved@.len() implies (#[trigger] moved@[j]).0
                    < o.cells by {
                    assert(o.keyed(ni, j));
                }
            }
        }
        proof {
            assert(gain(moved@) == times(sign as int, o.load(ni)));
            assert forall|c: int| #[trigger] listed(moved@, c) == (o.val(ni, c).0 != 0) by {
                if listed(moved@, c) {
                    let j = move_index(moved@, c);
                    assert(moved@[j].0 == c);
                    assert(move_of(moved@[j], sign as int, o.val(ni, moved@[j].0 as int)));
                }
            }
            assert forall|t: int, j: int|
                holds(chain@, t) && 0 <= j < moved@.len() implies #[trigger] move_fits(
                o.val(t, moved@[j].0 as int),
                moved@[j],
            ) by {
                assert(move_of(moved@[j], sign as int, o.val(ni, moved@[j].0 as int)));
            }
            assert(same_sign(moved@)) by {
                assert forall|j: int| 0 <= j < moved@.len() implies times(
                    sign as int,
                    (#[trigger] moved@[j]).1 as int,
                ) >= 0 by {
                    assert(move_of(moved@[j], sign as int, o.val(ni, moved@[j].0 as int)));
                    assert(sound_mass(o.val(ni, moved@[j].0 as int)));
                }
            }
        }
        self.spread(chain, &moved);
        proof {
            assert forall|t: int, c: int| #[trigger]
                self.val(t, c) == (if holds(chain@, t) && o.val(ni, c).0 != 0 {
                    bumped(o.dense, o.val(t, c), scaled(sign as int, o.val(ni, c)))
                } else {
                    o.val(t, c)
                }) by {
                assert(listed(moved@, c) == (o.val(ni, c).0 != 0));
                if listed(moved@, c) {
                    let j = move_index(moved@, c);
                    assert(moved@[j].0 == c);
                    assert(move_of(moved@[j], sign as int, o.val(ni, moved@[j].0 as int)));
                }
            }
            assert forall|t: int| 0 <= t < o.cap implies #[trigger] self.load(t) == o.load(t)
                + (if holds(chain@, t) {
                times(sign as int, o.load(ni))
            } else {
                0
            }) by {
                assert(self.loads@[t] == o.loads@[t] + (if holds(chain@, t) {
                    gain(moved@)
                } else {
                    0
                }));
            }
        }
    }

    /// How many of its cells slot `s` holds something in.
    pub open spec fn held(&self, s: int) -> int {
        total(
            self.width(),
            |c: int|
                if self.val(s, c).0 != 0 {
                    1int
                } else {
                    0
                },
        )
    }

    spec fn held_fn(&self, s: int) -> spec_fn(int) -> int {
        |c: int|
            if self.val(s, c).0 != 0 {
                1int
            } else {
                0
            }
    }

    /// A list has one entry per cell that its slot holds something in.
    proof fn lemma_held(&self, s: int, i: int)
        requires
            self.wf(),
            !self.dense,
            0 <= s < self.cap,
            0 <= i <= self.lists@[s].len(),
        ensures
            total(self.cells as int, self.held_upto(s, i)) == i,
        decreases i,
    {
        let f = self.held_upto(s, i);
        if i == 0 {
            lemma_total_zero(self.cells as int, f);
        } else {
            self.lemma_held(s, i - 1);
            let g = self.held_upto(s, i - 1);
            assert(self.linked(s, i - 1) && self.keyed(s, i - 1));
            let c = self.cell_of[self.lists@[s][i - 1]] as int;
            assert forall|b: int| 0 <= b < self.cells && b != c implies #[trigger] g(b) == f(
                b,
            ) by {
                if exists|j: int|
                    0 <= j < i && self.cell_of[#[trigger] self.lists@[s][j]] == b {
                    let j = choose|j: int|
                        0 <= j < i && self.cell_of[#[trigger] self.lists@[s][j]] == b;
                    assert(j < i - 1);
                }
            }
            assert(f(c) == 1) by {
                assert(self.cell_of[self.lists@[s][i - 1]] == c);
            }
            assert(g(c) == 0) by {
                assert forall|j: int| 0 <= j < i - 1 implies self.cell_of[#[trigger] self.lists@[s][j]]
                    != c by {
                    assert(self.linked(s, j) && self.keyed(s, j));
                }
            }
            lemma_total_change(self.cells as int, g, f, c);
        }
    }

    spec fn held_upto(&self, s: int, i: int) -> spec_fn(int) -> int {
        |c: int|
            if exists|j: int| 0 <= j < i && self.cell_of[#[trigger] self.lists@[s][j]] == c {
                1int
            } else {
                0
            }
    }

    /// What is held under slot `s`: cell, count, coordinate sums.
    pub fn kept(&self, s: u32) -> (out: Vec<(u32, i32, i64, i64)>)
        requires
            self.wf(),
            s < self.slots(),
        ensures
            forall|i: int|
                0 <= i < out@.len() ==> (#[trigger] out@[i]).0 < self.width() && self.val(
                    s as int,
                    out@[i].0 as int,
                ) == (out@[i].1 as int, out@[i].2 as int, out@[i].3 as int),
            forall|c: int|
                0 <= c < self.width() && #[trigger] self.val(s as int, c) != (0int, 0int, 0int)
                    ==> exists|i: int| 0 <= i < out@.len() && (#[trigger] out@[i]).0 == c,
    {
        let ghost si = s as int;
        let mut out: Vec<(u32, i32, i64, i64)> = Vec::new();
        if self.dense {
            let mut c: usize = 0;
            while c < self.cells
                invariant
                    self.wf(),
                    self.dense,
                    si == s,
                    si < self.cap,
                    c <= self.cells,
                    forall|i: int|
                        0 <= i < out@.len() ==> (#[trigger] out@[i]).0 < self.cells && self.val(
                            si,
                            out@[i].0 as int,
                        ) == (out@[i].1 as int, out@[i].2 as int, out@[i].3 as int),
                    forall|d: int|
                        0 <= d < c && #[trigger] self.val(si, d) != (0int, 0int, 0int)
                            ==> exists|i: int| 0 <= i < out@.len() && (#[trigger] out@[i]).0 == d,
                decreases self.cells - c,
            {
                proof {
                    lemma_flat_range(si, c as int, self.cells as int, self.cap as int);
                    assert(s * self.cells >= 0) by (nonlinear_arith);
                }
                let e = s as usize * self.cells + c;
                let ghost before = out@;
                if self.cnt[e] != 0 || self.sx[e] != 0 || self.sy[e] != 0 {
                    out.push((c as u32, self.cnt[e], self.sx[e], self.sy[e]));
                }
                proof {
                    assert forall|d: int|
                        0 <= d < c + 1 && #[trigger] self.val(si, d) != (
                            0int,
                            0int,
                            0int,
                        ) implies exists|i: int|
                        0 <= i < out@.len() && (#[trigger] out@[i]).0 == d by {
                        if d < c {
                            let i = choose|i: int|
                                0 <= i < before.len() && (#[trigger] before[i]).0 == d;
                            assert(out@[i] == before[i]);
                        } else {
                            assert(out@[before.len() as int].0 == d);
                        }
                    }
                }
                c = c + 1;
            }
        } else if self.cells > 0 {
            let ghost q = self.lists@[si];
            proof {
                assert(self.headed(si));
            }
            let mut e = self.head[s as usize];
            let ghost mut at: int = 0;
            while e != NIL
                invariant
                    self.wf(),
                    !self.dense,
                    si == s,
                    si < self.cap,
                    q == self.lists@[si],
                    0 <= at <= q.len(),
                    e == (if at < q.len() {
                        q[at]
                    } else {
                        NIL as int
                    }),
                    out@.len() == at,
                    forall|i: int|
                        0 <= i < at ==> (#[trigger] out@[i]).0 == self.cell_of[q[i]] && out@[i].0
                            < self.cells && self.val(si, out@[i].0 as int) == (
                            out@[i].1 as int,
                            out@[i].2 as int,
                            out@[i].3 as int,
                        ),
                decreases q.len() - at,
            {
                proof {
                    assert(at < q.len());
                    assert(self.linked(si, at) && self.keyed(si, at));
                }
                let k = e as usize;
                out.push((self.cell_of[k], self.cnt[k], self.sx[k], self.sy[k]));
                e = self.next[k];
                proof {
                    at = at + 1;
                }
            }
            proof {
                if at < q.len() {
                    assert(self.linked(si, at));
                }
                assert forall|c: int|
                    0 <= c < self.width() && #[trigger] self.val(si, c) != (
                        0int,
                        0int,
                        0int,
                    ) implies exists|i: int|
                    0 <= i < out@.len() && (#[trigger] out@[i]).0 == c by {
                    let k = key_of(si, c);
                    assert(self.agg@.contains_key(k));
                    assert(self.owned(k));
                    let e = self.agg@[k] as int;
                    assert(self.placed(e));
                    let (t, i) = self.place@[e];
                    assert(self.keyed(t, i));
                    lemma_key(si, c, t, self.cell_of[e] as int);
                    assert(out@[i].0 == c);
                }
            }
        }
        out
    }

    /// Live entries: in how many cells of how many slots anything is held.
    pub fn entries(&self) -> (n: usize)
        requires
            self.wf(),
            self.is_dense() ==> self.slots() * self.width() <= usize::MAX,
        ensures
            n == total(self.slots(), |s: int| self.held(s)),
    {
        let ghost held = |s: int| self.held(s);
        if self.cells == 0 {
            proof {
                assert forall|s: int| 0 <= s < self.cap implies #[trigger] held(s) == 0 by {}
                lemma_total_zero(self.cap as int, held);
            }
            return 0;
        }
        if self.dense {
            let mut n: usize = 0;
            let mut s: usize = 0;
            while s < self.cap
                invariant
                    s <= self.cap,
                    self.wf(),
                    self.dense,
                    self.cells > 0,
                    held == (|t: int| self.held(t)),
                    n == total(s as int, held),
                    n <= s * self.cells,
                    self.cap * self.cells <= usize::MAX,
                decreases self.cap - s,
            {
                let mut k: usize = 0;
                let ghost n0 = n;
                let ghost f = self.held_fn(s as int);
                proof {
                    lemma_flat_range(s as int, self.cells - 1, self.cells as int, self.cap as int);
                    assert(s * self.cells >= 0) by (nonlinear_arith);
                }
                while k < self.cells
                    invariant
                        k <= self.cells,
                        s < self.cap,
                        self.wf(),
                        self.dense,
                        f == self.held_fn(s as int),
                        n == n0 + total(k as int, f),
                        n <= n0 + k,
                        n0 <= s * self.cells,
                        s * self.cells + self.cells <= self.cap * self.cells,
                        self.cap * self.cells <= usize::MAX,
                    decreases self.cells - k,
                {
                    proof {
                        assert(total(k + 1, f) == total(k as int, f) + f(k as int));
                        assert(self.val(s as int, k as int) == self.at_entry(
                            flat(s as int, k as int, self.cells as int),
                        ));
                    }
                    if self.cnt[s * self.cells + k] != 0 {
                        n = n + 1;
                    }
                    k = k + 1;
                }
                proof {
                    lemma_total_ext(
                        self.cells as int,
                        f,
                        |c: int|
                            if self.val(s as int, c).0 != 0 {
                                1int
                            } else {
                                0
                            },
                    );
                    assert(held(s as int) == total(self.cells as int, f));
                    assert((s + 1) * self.cells == s * self.cells + self.cells)
                        by (nonlinear_arith);
                }
                s = s + 1;
            }
            return n;
        }
        let mut free: usize = 0;
        let mut e = self.free;
        proof {
            assert forall|s: int| 0 <= s < self.cap implies #[trigger] held(s)
                == self.list_len()(s) by {
                let i = self.lists@[s].len() as int;
                self.lemma_held(s, i);
                let f = self.held_upto(s, i);
                let g = |c: int|
                    if self.val(s, c).0 != 0 {
                        1int
                    } else {
                        0
                    };
                assert forall|c: int| 0 <= c < self.cells implies #[trigger] f(c) == g(c) by {
                    if f(c) == 1 {
                        let j = choose|j: int|
                            0 <= j < i && self.cell_of[#[trigger] self.lists@[s][j]] == c;
                        assert(self.linked(s, j) && self.keyed(s, j));
                        assert(self.cnt[self.lists@[s][j]] >= 1);
                    }
                    if g(c) == 1 {
                        assert(self.owned(key_of(s, c)));
                        let x = self.agg@[key_of(s, c)] as int;
                        assert(self.placed(x));
                        let (u, j) = self.place@[x];
                        assert(self.keyed(u, j));
                        lemma_key(s, c, u, self.cell_of[x] as int);
                        assert(self.cell_of[self.lists@[s][j]] == c);
                    }
                }
                lemma_total_ext(self.cells as int, f, g);
            }
            lemma_total_ext(self.cap as int, held, self.list_len());
            crate::sums::lemma_total_nonneg(self.cap as int, self.list_len());
        }
        while e != NIL
            invariant
                self.wf(),
                !self.dense,
                free <= self.spare@.len(),
                e == (if free < self.spare@.len() {
                    self.spare@[self.spare@.len() - 1 - free]
                } else {
                    NIL as int
                }),
                self.spare@.len() <= self.n,
            decreases self.spare@.len() - free,
        {
            proof {
                if free < self.spare@.len() {
                    assert(self.spared(self.spare@.len() - 1 - free));
                }
                if free + 1 < self.spare@.len() {
                    assert(self.spared(self.spare@.len() - 2 - free));
                }
            }
            free = free + 1;
            e = self.next[e as usize];
        }
        proof {
            if free < self.spare@.len() {
                assert(self.spared(self.spare@.len() - 1 - free));
            }
        }
        self.n as usize - free
    }

    /// What the vectors hold, and the bytes of the sparse layout's directory.
    pub closed spec fn lengths(&self) -> Room {
        Room {
            cnt: self.cnt.len() as int,
            sx: self.sx.len() as int,
            sy: self.sy.len() as int,
            cell_of: self.cell_of.len() as int,
            next: self.next.len() as int,
            prev: self.prev.len() as int,
            head: self.head.len() as int,
            agg: if self.dense {
                0
            } else {
                self.agg.capacity() as int * 12
            },
        }
    }

    /// Room for what the vectors hold, or more.
    pub open spec fn roomy(&self, r: Room) -> bool {
        let l = self.lengths();
        &&& r.cnt >= l.cnt
        &&& r.sx >= l.sx
        &&& r.sy >= l.sy
        &&& r.cell_of >= l.cell_of
        &&& r.next >= l.next
        &&& r.prev >= l.prev
        &&& r.head >= l.head
        &&& r.agg == l.agg
    }

    /// Rough resident size in bytes: what the vectors have allocated, which is at least what
    /// they hold.
    pub fn bytes(&self) -> (n: usize)
        requires
            self.wf(),
        ensures
            self.width() == 0 ==> n == 0,
            self.width() > 0 ==> exists|r: Room| #[trigger]
                self.roomy(r) && n == at_most_max(room_bytes(self.is_dense(), r)),
    {
        if self.cells == 0 {
            return 0;
        }
        let cnt = capacity_of(&self.cnt);
        let sx = capacity_of(&self.sx);
        let sy = capacity_of(&self.sy);
        let cell_of = capacity_of(&self.cell_of);
        let next = capacity_of(&self.next);
        let prev = capacity_of(&self.prev);
        let head = capacity_of(&self.head);
        let agg: usize = if self.dense {
            0
        } else {
            self.agg.bytes()
        };
        proof {
            let r = Room {
                cnt: cnt as int,
                sx: sx as int,
                sy: sy as int,
                cell_of: cell_of as int,
                next: next as int,
                prev: prev as int,
                head: head as int,
                agg: agg as int,
            };
            assert(self.roomy(r));
        }
        bytes_of(self.dense, cnt, sx, sy, cell_of, next, prev, head, agg)
    }
}

/// What the vectors of a table have room for, in elements, and the bytes of its directory.
pub struct Room {
    pub cnt: int,
    pub sx: int,
    pub sy: int,
    pub cell_of: int,
    pub next: int,
    pub prev: int,
    pub head: int,
    pub agg: int,
}

/// The bytes that the vectors of a table take.
pub open spec fn room_bytes(dense: bool, r: Room) -> int {
    if dense {
        4 * r.cnt + 8 * r.sx + 8 * r.sy
    } else {
        4 * r.cnt + 8 * r.sx + 8 * r.sy + 4 * (r.cell_of + r.next + r.prev + r.head) + r.agg
    }
}

/// A number of bytes, as far as the machine can count.
pub open spec fn at_most_max(n: int) -> int {
    if n > usize::MAX {
        usize::MAX as int
    } else {
        n
    }
}

/// The bytes of a table whose vectors have room for so many elements.
pub fn bytes_of(
    dense: bool,
    cnt: usize,
    sx: usize,
    sy: usize,
    cell_of: usize,
    next: usize,
    prev: usize,
    head: usize,
    agg: usize,
) -> (n: usize)
    ensures
        n == at_most_max(
            room_bytes(
                dense,
                (Room {
                    cnt: cnt as int,
                    sx: sx as int,
                    sy: sy as int,
                    cell_of: cell_of as int,
                    next: next as int,
                    prev: prev as int,
                    head: head as int,
                    agg: agg as int,
                }),
            ),
        ),
{
    let mut n: u128 = (cnt as u128) * 4 + (sx as u128) * 8 + (sy as u128) * 8;
    if !dense {
        n = n + (cell_of as u128) * 4 + (next as u128) * 4 + (prev as u128) * 4 + (head as u128) * 4
            + agg as u128;
    }
    if n > usize::MAX as u128 {
        usize::MAX
    } else {
        n as usize
    }
}

/// `sign` times an aggregate.
pub open spec fn scaled(sign: int, m: (int, int, int)) -> (int, int, int) {
    (times(sign, m.0), times(sign, m.1), times(sign, m.2))
}

/// `v` for sign 1, `-v` for sign -1.
pub open spec fn times(sign: int, v: int) -> int {
    if sign == 1 {
        v
    } else {
        -v
    }
}

/// Fits its machine integers, and so does its negation.
pub open spec fn sound_mass(m: (int, int, int)) -> bool {
    0 <= m.0 <= i32::MAX && -i64::MAX <= m.1 <= i64::MAX && -i64::MAX <= m.2 <= i64::MAX
}

/// Room for `sign` times the subtree mass of `node` on every node of `chain`.
pub open spec fn can_move(t: CellTable, chain: Seq<u32>, node: int, sign: int) -> bool {
    &&& chain.no_duplicates()
    &&& forall|i: int| 0 <= i < chain.len() ==> #[trigger] chain[i] < t.slots()
    &&& forall|c: int| sound_mass(#[trigger] t.val(node, c))
    &&& forall|s: int, c: int|
        holds(chain, s) && t.val(node, c).0 != 0 ==> mass_fits(
            (
                (#[trigger] t.val(s, c)).0 + times(sign, t.val(node, c).0),
                t.val(s, c).1 + times(sign, t.val(node, c).1),
                t.val(s, c).2 + times(sign, t.val(node, c).2),
            ),
        )
    &&& !t.is_dense() ==> load_fits(t.total_load()) && load_fits(
        t.total_load() + chain.len() * times(sign, t.load(node)),
    )
}

spec fn move_of(d: (u32, i32, i64, i64), sign: int, m: (int, int, int)) -> bool {
    (d.1 as int, d.2 as int, d.3 as int) == scaled(sign, m)
}

/// One of the moves concerns cell `c`.
spec fn listed(moved: Seq<(u32, i32, i64, i64)>, c: int) -> bool {
    exists|j: int| 0 <= j < moved.len() && #[trigger] moved[j].0 == c
}

spec fn move_index(moved: Seq<(u32, i32, i64, i64)>, c: int) -> int {
    choose|j: int| 0 <= j < moved.len() && #[trigger] moved[j].0 == c
}

/// What the moves add to cell `c`.
spec fn delta(moved: Seq<(u32, i32, i64, i64)>, c: int) -> (int, int, int) {
    let m = moved[move_index(moved, c)];
    (m.1 as int, m.2 as int, m.3 as int)
}

/// The sum of the counts that the moves add.
spec fn gain(moved: Seq<(u32, i32, i64, i64)>) -> int
    decreases moved.len(),
{
    if moved.len() == 0 {
        0
    } else {
        gain(moved.drop_last()) + moved.last().1
    }
}

spec fn same_sign(moved: Seq<(u32, i32, i64, i64)>) -> bool {
    (forall|j: int| 0 <= j < moved.len() ==> (#[trigger] moved[j]).1 >= 0) || (forall|j: int|
        0 <= j < moved.len() ==> (#[trigger] moved[j]).1 <= 0)
}

spec fn move_fits(m: (int, int, int), d: (u32, i32, i64, i64)) -> bool {
    mass_fits((m.0 + d.1, m.1 + d.2, m.2 + d.3))
}

proof fn lemma_take_listed(m: Seq<(u32, i32, i64, i64)>, i: int, b: int)
    requires
        0 <= i < m.len(),
    ensures
        listed(m.take(i + 1), b) == (listed(m.take(i), b) || m[i].0 == b),
{
    if listed(m.take(i + 1), b) {
        let j = choose|j: int| 0 <= j < i + 1 && #[trigger] m.take(i + 1)[j].0 == b;
        if j < i {
            assert(m.take(i)[j].0 == b);
        }
    }
    if listed(m.take(i), b) {
        let j = choose|j: int| 0 <= j < i && #[trigger] m.take(i)[j].0 == b;
        assert(m.take(i + 1)[j].0 == b);
    }
    if m[i].0 == b {
        assert(m.take(i + 1)[i].0 == b);
    }
}

/// Moves of one sign never overshoot.
proof fn lemma_gain_between(m: Seq<(u32, i32, i64, i64)>, j: int)
    requires
        0 <= j <= m.len(),
        same_sign(m),
    ensures
        gain(m.take(j)) <= 0 || gain(m.take(j)) <= gain(m),
    decreases m.len() - j,
{
    if forall|i: int| 0 <= i < m.len() ==> (#[trigger] m[i]).1 >= 0 {
        if j < m.len() {
            lemma_gain_between(m, j + 1);
            assert(m.take(j + 1).drop_last() =~= m.take(j));
            assert(m.take(j + 1).last() == m[j]);
            assert(m[j].1 >= 0);
            lemma_gain_nonneg(m.take(j));
        } else {
            assert(m.take(j) =~= m);
        }
    } else {
        lemma_gain_nonpos(m.take(j));
    }
}

proof fn lemma_gain_nonneg(m: Seq<(u32, i32, i64, i64)>)
    ensures
        (forall|i: int| 0 <= i < m.len() ==> (#[trigger] m[i]).1 >= 0) ==> gain(m) >= 0,
    decreases m.len(),
{
    if m.len() > 0 && (forall|i: int| 0 <= i < m.len() ==> (#[trigger] m[i]).1 >= 0) {
        assert(m.last() == m[m.len() - 1]);
        assert forall|i: int| 0 <= i < m.drop_last().len() implies (#[trigger] m.drop_last()[i]).1
            >= 0 by {
            assert(m.drop_last()[i] == m[i]);
        }
        lemma_gain_nonneg(m.drop_last());
    }
}

proof fn lemma_gain_nonpos(m: Seq<(u32, i32, i64, i64)>)
    requires
        forall|i: int| 0 <= i < m.len() ==> (#[trigger] m[i]).1 <= 0,
    ensures
        gain(m) <= 0,
    decreases m.len(),
{
    if m.len() > 0 {
        assert(m.last() == m[m.len() - 1]);
        assert forall|i: int| 0 <= i < m.drop_last().len() implies (#[trigger] m.drop_last()[i]).1
            <= 0 by {
            assert(m.drop_last()[i] == m[i]);
        }
        lemma_gain_nonpos(m.drop_last());
    }
}

/// The sequence holds the number `x`.
pub open spec fn holds(q: Seq<u32>, x: int) -> bool {
    exists|i: int| 0 <= i < q.len() && #[trigger] q[i] == x
}

/// What a single point at `(x, y)` in `cells` adds to cell `c`.
pub open spec fn own_mass(width: int, cells: Seq<u32>, x: int, y: int, c: int) -> (int, int, int) {
    if width > 0 && holds(cells, c) {
        (1, x, y)
    } else {
        (0, 0, 0)
    }
}

/// How many entries a slot has that carries one point in each of some cells.
pub open spec fn set_load(width: int, cells: Seq<u32>) -> int {
    if width > 0 {
        cells.to_set().len() as int
    } else {
        0
    }
}

/// How many counts a single point in `cells` adds.
pub open spec fn own_load(width: int, cells: Seq<u32>) -> int {
    if width > 0 {
        cells.len() as int
    } else {
        0
    }
}

pub proof fn lemma_take_contains(q: Seq<u32>, i: int, b: int)
    requires
        0 <= i < q.len(),
    ensures
        holds(q.take(i + 1), b) == (holds(q.take(i), b) || q[i] == b),
{
    if holds(q.take(i + 1), b) {
        let j = choose|j: int| 0 <= j < i + 1 && #[trigger] q.take(i + 1)[j] == b;
        if j < i {
            assert(q.take(i)[j] == b);
        }
    }
    if holds(q.take(i), b) {
        let j = choose|j: int| 0 <= j < i && #[trigger] q.take(i)[j] == b;
        assert(q.take(i + 1)[j] == b);
    }
    if q[i] == b {
        assert(q.take(i + 1)[i] == b);
    }
}

/// How often `x` stands in a list.
pub open spec fn hits(q: Seq<u32>, x: int) -> int
    decreases q.len(),
{
    if q.len() == 0 {
        0
    } else {
        hits(q.drop_last(), x) + (if q.last() == x {
            1int
        } else {
            0int
        })
    }
}

proof fn lemma_hits_step(q: Seq<u32>, i: int, x: int)
    requires
        0 <= i < q.len(),
    ensures
        hits(q.take(i + 1), x) == hits(q.take(i), x) + (if q[i] == x {
            1int
        } else {
            0int
        }),
{
    assert(q.take(i + 1).drop_last() =~= q.take(i));
}

proof fn lemma_hits_some(q: Seq<u32>, x: int)
    ensures
        0 <= hits(q, x),
    decreases q.len(),
{
    if q.len() > 0 {
        lemma_hits_some(q.drop_last(), x);
    }
}

proof fn lemma_hits_part(q: Seq<u32>, i: int, x: int)
    requires
        0 <= i <= q.len(),
    ensures
        0 <= hits(q.take(i), x) <= hits(q, x),
    decreases q.len() - i,
{
    lemma_hits_some(q.take(i), x);
    if i < q.len() {
        lemma_hits_part(q, i + 1, x);
        lemma_hits_step(q, i, x);
    } else {
        assert(q.take(i) =~= q);
    }
}

/// A list without repetitions holds what it holds once.
proof fn lemma_hits_once(q: Seq<u32>, x: int)
    ensures
        0 <= hits(q, x),
        holds(q, x) <==> hits(q, x) > 0,
        q.no_duplicates() ==> hits(q, x) <= 1,
    decreases q.len(),
{
    if q.len() > 0 {
        let p = q.drop_last();
        lemma_hits_once(p, x);
        if holds(p, x) {
            let i = choose|i: int| 0 <= i < p.len() && #[trigger] p[i] == x;
            assert(q[i] == x);
        }
        if q.last() == x {
            assert(q[q.len() - 1] == x);
        }
        if holds(q, x) && q.last() != x {
            let i = choose|i: int| 0 <= i < q.len() && #[trigger] q[i] == x;
            assert(p[i] == x);
        }
        if q.no_duplicates() {
            assert(p.no_duplicates());
            if q.last() == x && holds(p, x) {
                let i = choose|i: int| 0 <= i < p.len() && #[trigger] p[i] == x;
                assert(q[i] == q[q.len() - 1]);
            }
        }
    }
}

/// Two triples, added.
pub open spec fn added(m: (int, int, int), d: (int, int, int)) -> (int, int, int) {
    (m.0 + d.0, m.1 + d.1, m.2 + d.2)
}

/// What adding `d` leaves of `m`, `k` times over.
pub open spec fn repeated(dense: bool, m: (int, int, int), d: (int, int, int), k: int) -> (
    int,
    int,
    int,
)
    decreases k,
{
    if k <= 0 {
        m
    } else {
        bumped(dense, repeated(dense, m, d, k - 1), d)
    }
}

/// Every sum on the way fits the machine integers.
pub open spec fn repeats_fit(dense: bool, m: (int, int, int), d: (int, int, int), k: int) -> bool {
    forall|j: int| 0 <= j < k ==> mass_fits(added(#[trigger] repeated(dense, m, d, j), d))
}

proof fn lemma_repeated_once(dense: bool, m: (int, int, int), d: (int, int, int))
    ensures
        repeated(dense, m, d, 1) == bumped(dense, m, d),
        repeated(dense, m, d, 0) == m,
{
    assert(repeated(dense, m, d, 0) == m);
}

proof fn lemma_once(dense: bool, m: (int, int, int), d: (int, int, int), h: int, k: int)
    requires
        0 <= h <= 1,
        0 <= k <= 1,
        h == 1 && k == 1 ==> mass_fits(added(m, d)),
    ensures
        repeats_fit(dense, m, d, h * k),
{
    assert(h == 0 || k == 0 ==> h * k == 0) by (nonlinear_arith);
    assert forall|j: int| 0 <= j < h * k implies mass_fits(
        added(#[trigger] repeated(dense, m, d, j), d),
    ) by {
        assert(j == 0);
    }
}

proof fn lemma_rounds(h: int, most: int, j: int, k: int)
    requires
        0 <= h,
        h + 1 <= most,
        0 <= j,
        j + 1 <= k,
    ensures
        0 <= h * k + j < most * k,
{
    assert(h * k + k <= most * k) by (nonlinear_arith)
        requires
            h + 1 <= most,
            k >= 0,
    ;
    assert(h * k >= 0) by (nonlinear_arith)
        requires
            h >= 0,
            k >= 0,
    ;
}

/// A load that grows or shrinks evenly stays below the larger of its ends.
proof fn lemma_on_the_way(i: int, m: int, j: int, n: int, dc: int)
    requires
        0 <= i < m,
        0 <= j < n,
    ensures
        i * (dc * n) + dc * j <= 0 || i * (dc * n) + dc * j <= m * (dc * n),
{
    let at = i * n + j;
    let end = m * n;
    assert(0 <= at <= end) by (nonlinear_arith)
        requires
            at == i * n + j,
            end == m * n,
            0 <= i < m,
            0 <= j < n,
    ;
    assert(i * (dc * n) + dc * j == dc * at && m * (dc * n) == dc * end) by (nonlinear_arith)
        requires
            at == i * n + j,
            end == m * n,
    ;
    assert(dc * at <= 0 || dc * at <= dc * end) by (nonlinear_arith)
        requires
            0 <= at <= end,
    ;
}

/// Every count and every sum on the walk over two lists fits, and so does the load.
pub open spec fn walkable(
    t: CellTable,
    chain: Seq<u32>,
    cells: Seq<u32>,
    d: (int, int, int),
) -> bool {
    &&& forall|i: int| 0 <= i < chain.len() ==> #[trigger] chain[i] < t.slots()
    &&& forall|i: int| 0 <= i < cells.len() ==> #[trigger] cells[i] < t.width()
    &&& forall|s: int, c: int|
        repeats_fit(t.is_dense(), #[trigger] t.val(s, c), d, hits(chain, s) * hits(cells, c))
    &&& !t.is_dense() ==> load_fits(t.total_load()) && load_fits(
        t.total_load() + chain.len() * (d.0 * cells.len()),
    )
}

/// Room for one point's worth of counts on every node of `chain`, where neither list repeats.
pub open spec fn can_walk(
    t: CellTable,
    chain: Seq<u32>,
    cells: Seq<u32>,
    dc: int,
    dx: int,
    dy: int,
) -> bool {
    &&& chain.no_duplicates()
    &&& cells.no_duplicates()
    &&& forall|i: int| 0 <= i < chain.len() ==> #[trigger] chain[i] < t.slots()
    &&& forall|i: int| 0 <= i < cells.len() ==> #[trigger] cells[i] < t.width()
    &&& forall|s: int, c: int|
        holds(chain, s) && holds(cells, c) ==> mass_fits(
            (
                (#[trigger] t.val(s, c)).0 + dc,
                t.val(s, c).1 + dx,
                t.val(s, c).2 + dy,
            ),
        )
    &&& !t.is_dense() ==> load_fits(t.total_load()) && load_fits(
        t.total_load() + chain.len() * (dc * cells.len()),
    )
}

/// The sparse layout can link as many entries.
pub open spec fn load_fits(n: int) -> bool {
    n < MAX_ENTRIES && (n + 2) * 64 <= usize::MAX
}

} // verus!
