//! Two layouts, one interface: a dense and a sparse table answer alike.
use crate::cells::{added, bumped, hits, holds, law_layouts, mass_fits, own_mass, repeated, repeats_fit,
    scaled, CellTable};
use crate::sums::{lemma_total_ext, total};
use vstd::prelude::*;

verus! {

/// A call that changes a table.
pub enum TableCall {
    Grow { cap: int },
    Bump { s: int, cell: int, d: (int, int, int) },
    Walk { chain: Seq<u32>, cells: Seq<u32>, d: (int, int, int) },
    SetSelf { s: int, cells: Seq<u32>, x: int, y: int },
    MoveSubtree { chain: Seq<u32>, node: int, sign: int },
    DropSlot { s: int },
}

/// What a call leaves of what `(t, c)` holds.
pub open spec fn left(a: CellTable, call: TableCall, t: int, c: int) -> (int, int, int) {
    let (m, dense) = (a.val(t, c), a.is_dense());
    match call {
        TableCall::Grow { cap } => m,
        TableCall::Bump { s, cell, d } => if t == s && c == cell {
            bumped(dense, m, d)
        } else {
            m
        },
        TableCall::Walk { chain, cells, d } => if a.width() > 0 {
            repeated(dense, m, d, hits(chain, t) * hits(cells, c))
        } else {
            m
        },
        TableCall::SetSelf { s, cells, x, y } => if t == s {
            own_mass(a.width(), cells, x, y, c)
        } else {
            m
        },
        TableCall::MoveSubtree { chain, node, sign } => if holds(chain, t) && a.val(node, c).0
            != 0 {
            bumped(dense, m, scaled(sign, a.val(node, c)))
        } else {
            m
        },
        TableCall::DropSlot { s } => if t == s {
            (0, 0, 0)
        } else {
            m
        },
    }
}

/// On the way no count gets below zero, and no number beyond its machine integer.
pub open spec fn passes(a: CellTable, call: TableCall, t: int, c: int) -> bool {
    let (m, dense) = (a.val(t, c), a.is_dense());
    match call {
        TableCall::Bump { s, cell, d } => t == s && c == cell ==> mass_fits(added(m, d)),
        TableCall::Walk { chain, cells, d } => a.width() > 0 ==> repeats_fit(
            dense,
            m,
            d,
            hits(chain, t) * hits(cells, c),
        ),
        TableCall::MoveSubtree { chain, node, sign } => a.width() > 0 && holds(chain, t) && a.val(
            node,
            c,
        ).0 != 0 ==> mass_fits(added(m, scaled(sign, a.val(node, c)))),
        _ => true,
    }
}

/// A call takes a table from `a` to `b`.
pub open spec fn did(a: CellTable, call: TableCall, b: CellTable) -> bool {
    &&& b.width() == a.width()
    &&& b.is_dense() == a.is_dense()
    &&& b.slots() == (match call {
        TableCall::Grow { cap } => cap,
        _ => a.slots(),
    })
    &&& forall|t: int, c: int| #[trigger] b.val(t, c) == left(a, call, t, c)
    &&& forall|t: int, c: int| #[trigger] passes(a, call, t, c)
}

/// Nothing is left in the sums of what counts nothing.
pub open spec fn clean(t: CellTable) -> bool {
    forall|s: int, c: int|
        (#[trigger] t.val(s, c)).0 == 0 ==> t.val(s, c) == (0int, 0int, 0int)
}

/// In the dense layout, adding over and over adds a multiple.
proof fn lemma_multiple(m: (int, int, int), d: (int, int, int), j: int)
    requires
        0 <= j,
    ensures
        repeated(true, m, d, j) == (m.0 + j * d.0, m.1 + j * d.1, m.2 + j * d.2),
    decreases j,
{
    if j > 0 {
        lemma_multiple(m, d, j - 1);
        let (x, y, z) = d;
        assert(j * x == (j - 1) * x + x && j * y == (j - 1) * y + y && j * z == (j - 1) * z + z)
            by (nonlinear_arith);
    }
}

/// Adding over and over leaves the same in both layouts.
proof fn lemma_repeated_alike(m: (int, int, int), d: (int, int, int), k: int, j: int)
    requires
        0 <= j <= k,
        0 <= m.0,
        m.0 == 0 ==> m == (0int, 0int, 0int),
        repeats_fit(true, m, d, k),
        repeated(true, m, d, k).0 == 0 ==> repeated(true, m, d, k) == (0int, 0int, 0int),
    ensures
        repeated(false, m, d, j) == repeated(true, m, d, j),
    decreases j,
{
    if j > 0 {
        lemma_repeated_alike(m, d, k, j - 1);
        let p = repeated(true, m, d, j - 1);
        lemma_multiple(m, d, j - 1);
        lemma_multiple(m, d, j);
        lemma_multiple(m, d, k);
        assert(mass_fits(added(repeated(true, m, d, j - 1), d)));
        let (x, y, z) = d;
        if p.0 + d.0 == 0 && j < k {
            let q = repeated(true, m, d, j);
            assert(mass_fits(added(q, d)));
            assert(q.0 == 0);
            assert(x >= 0);
            assert(m.0 + j * x == 0);
            assert(x == 0 && m.0 == 0) by (nonlinear_arith)
                requires
                    m.0 + j * x == 0,
                    m.0 >= 0,
                    x >= 0,
                    j > 0,
            ;
            assert(k * x == 0) by (nonlinear_arith)
                requires
                    x == 0,
            ;
            assert(k * y == 0 && k * z == 0);
            assert(y == 0 && z == 0) by (nonlinear_arith)
                requires
                    k * y == 0,
                    k * z == 0,
                    k > 0,
            ;
            assert(j * y == 0 && j * z == 0) by (nonlinear_arith)
                requires
                    y == 0,
                    z == 0,
            ;
        }
        law_layouts(p, d);
    }
}

/// One call leaves the same in both layouts.
proof fn lemma_step(a: CellTable, b: CellTable, call: TableCall, x: CellTable, t: int, c: int)
    requires
        a.is_dense(),
        !b.is_dense(),
        a.width() == b.width(),
        forall|t: int, c: int| #[trigger] a.val(t, c) == b.val(t, c),
        forall|t: int, c: int| 0 <= (#[trigger] a.val(t, c)).0,
        clean(a),
        clean(x),
        did(a, call, x),
    ensures
        left(a, call, t, c) == left(b, call, t, c),
        0 <= left(a, call, t, c).0,
{
    let m = a.val(t, c);
    assert(b.val(t, c) == m);
    assert(passes(a, call, t, c));
    assert(x.val(t, c) == left(a, call, t, c));
    match call {
        TableCall::Bump { s, cell, d } => {
            if t == s && c == cell {
                law_layouts(m, d);
            }
        },
        TableCall::Walk { chain, cells, d } => {
            let k = hits(chain, t) * hits(cells, c);
            if a.width() > 0 && k > 0 {
                lemma_repeated_alike(m, d, k, k);
                assert(mass_fits(added(repeated(true, m, d, k - 1), d)));
            }
        },
        TableCall::MoveSubtree { chain, node, sign } => {
            assert(b.val(node, c) == a.val(node, c));
            if holds(chain, t) && a.val(node, c).0 != 0 {
                a.lemma_outside(node, c);
                law_layouts(m, scaled(sign, a.val(node, c)));
            }
        },
        _ => {},
    }
}

/// **Two layouts, one interface**: a dense and a sparse table that start empty hold the same
/// after the same calls, count by count and sum by sum, and have as many entries, as long as no
/// call leaves sums behind where nothing is counted.
pub proof fn law_layouts_agree(
    a: Seq<CellTable>,
    b: Seq<CellTable>,
    calls: Seq<TableCall>,
    k: int,
)
    requires
        a.len() == calls.len() + 1,
        b.len() == calls.len() + 1,
        0 <= k <= calls.len(),
        a[0].is_dense(),
        !b[0].is_dense(),
        a[0].width() == b[0].width(),
        a[0].slots() == 0,
        b[0].slots() == 0,
        forall|i: int| 0 <= i < calls.len() ==> did(a[i], #[trigger] calls[i], a[i + 1]),
        forall|i: int| 0 <= i < calls.len() ==> did(b[i], #[trigger] calls[i], b[i + 1]),
        forall|i: int| 0 <= i < a.len() ==> clean(#[trigger] a[i]),
    ensures
        a[k].is_dense(),
        !b[k].is_dense(),
        a[k].width() == b[k].width(),
        a[k].slots() == b[k].slots(),
        forall|s: int, c: int| #[trigger] a[k].val(s, c) == b[k].val(s, c),
        forall|s: int, c: int| 0 <= (#[trigger] a[k].val(s, c)).0,
        total(a[k].slots(), |s: int| a[k].held(s)) == total(b[k].slots(), |s: int| b[k].held(s)),
    decreases k,
{
    let (x, y) = (a[k], b[k]);
    if k == 0 {
        assert forall|s: int, c: int| #[trigger] x.val(s, c) == y.val(s, c) && x.val(s, c).0 >= 0 by {
            x.lemma_outside(s, c);
            y.lemma_outside(s, c);
        }
    } else {
        law_layouts_agree(a, b, calls, k - 1);
        let call = calls[k - 1];
        assert(did(a[k - 1], call, x) && did(b[k - 1], call, y));
        assert(clean(a[k - 1]) && clean(x));
        assert forall|s: int, c: int| #[trigger] x.val(s, c) == y.val(s, c) && x.val(s, c).0 >= 0 by {
            lemma_step(a[k - 1], b[k - 1], call, x, s, c);
            assert(y.val(s, c) == left(b[k - 1], call, s, c));
        }
    }
    let (f, g) = (|s: int| x.held(s), |s: int| y.held(s));
    assert forall|s: int| 0 <= s < x.slots() implies #[trigger] f(s) == g(s) by {
        let p = |c: int|
            if x.val(s, c).0 != 0 {
                1int
            } else {
                0
            };
        let q = |c: int|
            if y.val(s, c).0 != 0 {
                1int
            } else {
                0
            };
        assert forall|c: int| 0 <= c < x.width() implies #[trigger] p(c) == q(c) by {
            assert(x.val(s, c) == y.val(s, c));
        }
        lemma_total_ext(x.width(), p, q);
    }
    lemma_total_ext(x.slots(), f, g);
}

} // verus!
