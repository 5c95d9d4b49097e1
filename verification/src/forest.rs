//! Sums over trees: what a node's aggregate is worth, given that it is its own weight plus the
//! aggregates of its children.
use crate::sums::{lemma_sum_ext, lemma_sum_indicator, lemma_sum_total_swap, lemma_sum_zero,
    lemma_total_add, lemma_total_change, lemma_total_ext, lemma_total_le, lemma_total_scale,
    lemma_total_swap, lemma_total_zero, sum_over, total};
use vstd::prelude::*;

verus! {

/// Trees over the numbers below `n`: which of them are nodes, the parent of a node (-1 for
/// none), its level, and its children in order.
#[verifier::ext_equal]
pub struct Forest {
    pub n: int,
    pub on: spec_fn(int) -> bool,
    pub up: spec_fn(int) -> int,
    pub level: spec_fn(int) -> int,
    pub kids: Seq<Seq<int>>,
}

impl Forest {
    /// `c` is a node below `n` whose parent, if any, is a node of a smaller level that lists it.
    pub open spec fn hangs(&self, c: int) -> bool {
        let p = (self.up)(c);
        &&& 0 <= c < self.n
        &&& 0 <= (self.level)(c)
        &&& p == -1 || ((self.on)(p) && (self.level)(p) < (self.level)(c)
            && self.kids[p].contains(c))
    }

    /// The children of `s` are nodes that name it as their parent, each once.
    pub open spec fn bears(&self, s: int) -> bool {
        &&& self.kids[s].no_duplicates()
        &&& forall|i: int|
            0 <= i < self.kids[s].len() ==> (self.on)(#[trigger] self.kids[s][i]) && (self.up)(
                self.kids[s][i],
            ) == s
    }

    pub open spec fn ok(&self) -> bool {
        &&& forall|c: int| #[trigger] (self.on)(c) ==> self.hangs(c) && self.bears(c)
    }

    /// `p` is `s` or below it.
    pub open spec fn under(&self, s: int, p: int) -> bool
        decreases (self.level)(p),
    {
        p == s || ((self.up)(p) != -1 && 0 <= (self.level)((self.up)(p)) < (self.level)(p)
            && self.under(s, (self.up)(p)))
    }

    /// The first node at or above `p` whose level is at most `z`.
    pub open spec fn rep(&self, p: int, z: int) -> int
        decreases (self.level)(p),
    {
        if (self.level)(p) <= z || (self.up)(p) == -1 || !(0 <= (self.level)((self.up)(p))
            < (self.level)(p)) {
            p
        } else {
            self.rep((self.up)(p), z)
        }
    }

    /// `w` at the nodes, 0 elsewhere.
    pub open spec fn at_nodes(&self, w: spec_fn(int) -> int) -> spec_fn(int) -> int {
        |p: int|
            if (self.on)(p) {
                w(p)
            } else {
                0
            }
    }

    /// `w` at the nodes under `s`, 0 elsewhere.
    pub open spec fn at_under(&self, s: int, w: spec_fn(int) -> int) -> spec_fn(int) -> int {
        |p: int|
            if (self.on)(p) && self.under(s, p) {
                w(p)
            } else {
                0
            }
    }

    /// `w` at the nodes that `s` represents at level `z`, 0 elsewhere.
    pub open spec fn at_rep(&self, s: int, z: int, w: spec_fn(int) -> int) -> spec_fn(int) -> int {
        |p: int|
            if (self.on)(p) && self.rep(p, z) == s {
                w(p)
            } else {
                0
            }
    }

    /// The aggregate of `s` is its own weight and the aggregates of its children.
    pub open spec fn balanced(
        &self,
        a: spec_fn(int) -> int,
        w: spec_fn(int) -> int,
        s: int,
    ) -> bool {
        a(s) == w(s) + sum_over(self.kids[s], a)
    }

    pub open spec fn all_balanced(&self, a: spec_fn(int) -> int, w: spec_fn(int) -> int) -> bool {
        forall|s: int| #[trigger] (self.on)(s) ==> self.balanced(a, w, s)
    }
}

/// Being under someone means being at least as deep.
pub proof fn lemma_under_level(f: Forest, s: int, p: int)
    requires
        f.ok(),
        (f.on)(p),
        f.under(s, p),
    ensures
        (f.on)(s),
        (f.level)(s) <= (f.level)(p),
        s != p ==> (f.level)(s) < (f.level)(p),
    decreases (f.level)(p),
{
    if p != s {
        assert(f.hangs(p));
        lemma_under_level(f, s, (f.up)(p));
    }
}

/// What is under `s` is `s` itself or under exactly one of its children.
pub proof fn lemma_under_split(f: Forest, s: int, p: int, w: spec_fn(int) -> int)
    requires
        f.ok(),
        (f.on)(s),
        (f.on)(p),
    ensures
        f.at_under(s, w)(p) == (if p == s {
            w(p)
        } else {
            0
        }) + sum_over(f.kids[s], |c: int| f.at_under(c, w)(p)),
    decreases (f.level)(p),
{
    let q = f.kids[s];
    let g = |c: int| f.at_under(c, w)(p);
    assert(f.hangs(s) && f.bears(s));
    assert(f.hangs(p) && f.bears(p));
    if p == s {
        assert forall|i: int| 0 <= i < q.len() implies g(#[trigger] q[i]) == 0 by {
            assert((f.on)(q[i]) && (f.up)(q[i]) == s);
            assert(f.hangs(q[i]));
            if f.under(q[i], p) {
                lemma_under_level(f, q[i], p);
            }
        }
        lemma_sum_zero(q, g);
    } else {
        let r = (f.up)(p);
        if r == s {
            // p is itself one of the children
            assert(q.contains(p));
            let k = q.index_of(p);
            assert(q[k] == p);
            assert forall|i: int| 0 <= i < q.len() && i != k implies g(#[trigger] q[i]) == 0 by {
                assert((f.on)(q[i]) && (f.up)(q[i]) == s);
                assert(f.hangs(q[i]));
                assert(q[i] != p);
                if f.under(q[i], p) {
                    assert(f.under(q[i], s));
                    lemma_under_level(f, q[i], s);
                }
            }
            lemma_sum_indicator(q, k, g);
            assert(f.under(s, s));
            assert(f.under(s, p));
            assert(f.under(p, p));
        } else if r == -1 {
            assert forall|i: int| 0 <= i < q.len() implies g(#[trigger] q[i]) == 0 by {
                assert((f.up)(q[i]) == s);
            }
            lemma_sum_zero(q, g);
        } else {
            let wr = |x: int| w(p);
            lemma_under_split(f, s, r, wr);
            let h = |c: int| f.at_under(c, wr)(r);
            assert forall|i: int| 0 <= i < q.len() implies g(#[trigger] q[i]) == h(q[i]) by {
                assert((f.on)(q[i]) && (f.up)(q[i]) == s);
                assert(q[i] != p);
            }
            lemma_sum_ext(q, g, h);
        }
    }
}

/// An aggregate is the sum of the weights under it.
pub proof fn lemma_aggregate(f: Forest, a: spec_fn(int) -> int, w: spec_fn(int) -> int, s: int, top: int)
    requires
        f.ok(),
        f.all_balanced(a, w),
        (f.on)(s),
        forall|c: int| #[trigger] (f.on)(c) ==> (f.level)(c) <= top,
    ensures
        a(s) == total(f.n, f.at_under(s, w)),
    decreases top - (f.level)(s),
{
    let q = f.kids[s];
    assert(f.balanced(a, w, s));
    assert(f.hangs(s) && f.bears(s));
    let g = |c: int, p: int| f.at_under(c, w)(p);
    let inner = |c: int| total(f.n, |p: int| g(c, p));
    assert forall|i: int| 0 <= i < q.len() implies a(#[trigger] q[i]) == inner(q[i]) by {
        assert((f.on)(q[i]) && (f.up)(q[i]) == s);
        assert(f.hangs(q[i]));
        assert((f.level)(q[i]) <= top);
        lemma_aggregate(f, a, w, q[i], top);
        lemma_total_ext(f.n, f.at_under(q[i], w), |p: int| g(q[i], p));
    }
    lemma_sum_ext(q, a, inner);
    lemma_sum_total_swap(q, f.n, g);
    let below = |p: int| sum_over(q, |c: int| g(c, p));
    let own = |p: int|
        if p == s {
            w(p)
        } else {
            0
        };
    let zero = |p: int| 0int;
    lemma_total_zero(f.n, zero);
    lemma_total_change(f.n, zero, own, s);
    let here = f.at_under(s, w);
    assert forall|p: int| 0 <= p < f.n implies #[trigger] here(p) == own(p) + below(p) by {
        if (f.on)(p) {
            lemma_under_split(f, s, p, w);
            lemma_sum_ext(q, |c: int| f.at_under(c, w)(p), |c: int| g(c, p));
        } else {
            let gp = |c: int| g(c, p);
            lemma_sum_zero(q, gp);
            assert(p != s);
        }
    }
    lemma_total_add(f.n, own, below, here);
    lemma_sum_ext(q, inner, |c: int| total(f.n, |p: int| g(c, p)));
}

/// Aggregates of non-negative weights stay between zero and the sum of all weights.
pub proof fn lemma_aggregate_bounds(
    f: Forest,
    a: spec_fn(int) -> int,
    w: spec_fn(int) -> int,
    s: int,
    top: int,
)
    requires
        f.ok(),
        f.all_balanced(a, w),
        (f.on)(s),
        forall|c: int| #[trigger] (f.on)(c) ==> (f.level)(c) <= top && w(c) >= 0,
    ensures
        w(s) <= a(s) <= total(f.n, f.at_nodes(w)),
        0 <= a(s),
{
    lemma_aggregate(f, a, w, s, top);
    let u = f.at_under(s, w);
    lemma_total_le(f.n, u, f.at_nodes(w));
    assert(f.hangs(s));
    crate::sums::lemma_total_member(f.n, u, s);
    assert(f.under(s, s));
}

/// No points below means no mass below.
pub proof fn lemma_empty_below(
    f: Forest,
    a: spec_fn(int) -> int,
    w: spec_fn(int) -> int,
    b: spec_fn(int) -> int,
    v: spec_fn(int) -> int,
    s: int,
    top: int,
)
    requires
        f.ok(),
        f.all_balanced(a, w),
        f.all_balanced(b, v),
        (f.on)(s),
        forall|c: int| #[trigger] (f.on)(c) ==> (f.level)(c) <= top && w(c) >= 0 && (w(c) == 0 ==> v(c) == 0),
        a(s) == 0,
    ensures
        b(s) == 0,
{
    lemma_aggregate(f, a, w, s, top);
    lemma_aggregate(f, b, v, s, top);
    let u = f.at_under(s, w);
    assert forall|p: int| 0 <= p < f.n implies #[trigger] f.at_under(s, v)(p) == 0 by {
        crate::sums::lemma_total_member(f.n, u, p);
        assert(u(p) <= 0);
    }
    lemma_total_zero(f.n, f.at_under(s, v));
}

/// How many nodes `p` is under: no more than its level and one.
proof fn lemma_depth(f: Forest, p: int)
    requires
        f.ok(),
        (f.on)(p),
    ensures
        total(
            f.n,
            |s: int|
                if (f.on)(s) && f.under(s, p) {
                    1int
                } else {
                    0
                },
        ) <= (f.level)(p) + 1,
    decreases (f.level)(p),
{
    let ind = |s: int|
        if (f.on)(s) && f.under(s, p) {
            1int
        } else {
            0
        };
    let zero = |s: int| 0int;
    let own = |s: int|
        if s == p {
            1int
        } else {
            0
        };
    assert(f.hangs(p));
    lemma_total_zero(f.n, zero);
    lemma_total_change(f.n, zero, own, p);
    let r = (f.up)(p);
    if r == -1 {
        lemma_total_ext(f.n, ind, own);
    } else {
        lemma_depth(f, r);
        let above = |s: int|
            if (f.on)(s) && f.under(s, r) {
                1int
            } else {
                0
            };
        assert forall|s: int| 0 <= s < f.n implies #[trigger] ind(s) == own(s) + above(s) by {
            if s == p && (f.on)(s) && f.under(s, r) {
                lemma_under_level(f, s, r);
            }
        }
        lemma_total_add(f.n, own, above, ind);
    }
}

/// The sum of all aggregates is bounded by the depth times the sum of all weights.
pub proof fn lemma_aggregate_total(
    f: Forest,
    a: spec_fn(int) -> int,
    w: spec_fn(int) -> int,
    top: int,
)
    requires
        f.ok(),
        f.all_balanced(a, w),
        0 <= top,
        forall|c: int| #[trigger] (f.on)(c) ==> (f.level)(c) <= top && w(c) >= 0,
    ensures
        total(f.n, f.at_nodes(a)) <= (top + 1) * total(f.n, f.at_nodes(w)),
{
    let g = |s: int, p: int|
        if (f.on)(s) {
            f.at_under(s, w)(p)
        } else {
            0
        };
    let rows = |s: int| total(f.n, |p: int| g(s, p));
    let cols = |p: int| total(f.n, |s: int| g(s, p));
    let na = f.at_nodes(a);
    assert forall|s: int| 0 <= s < f.n implies #[trigger] na(s) == rows(s) by {
        if (f.on)(s) {
            lemma_aggregate(f, a, w, s, top);
            lemma_total_ext(f.n, f.at_under(s, w), |p: int| g(s, p));
        } else {
            lemma_total_zero(f.n, |p: int| g(s, p));
        }
    }
    lemma_total_ext(f.n, na, rows);
    lemma_total_swap(f.n, f.n, g);
    let nw = f.at_nodes(w);
    let cap = |p: int| (top + 1) * nw(p);
    assert forall|p: int| 0 <= p < f.n implies #[trigger] cols(p) <= cap(p) by {
        let col = |s: int| g(s, p);
        if (f.on)(p) {
            let ind = |s: int|
                if (f.on)(s) && f.under(s, p) {
                    1int
                } else {
                    0
                };
            lemma_depth(f, p);
            assert forall|s: int| 0 <= s < f.n implies #[trigger] col(s) == w(p) * ind(s) by {
                assert(w(p) * 1 == w(p));
                assert(w(p) * 0 == 0);
            }
            lemma_total_scale(f.n, w(p), ind, col);
            let d = total(f.n, ind);
            assert(w(p) * d <= (top + 1) * w(p)) by (nonlinear_arith)
                requires
                    d <= top + 1,
                    w(p) >= 0,
            ;
        } else {
            lemma_total_zero(f.n, col);
        }
    }
    lemma_total_le(f.n, cols, cap);
    lemma_total_scale(f.n, top + 1, nw, cap);
    lemma_total_ext(f.n, rows, |s: int| total(f.n, |p: int| g(s, p)));
    lemma_total_ext(f.n, cols, |p: int| total(f.n, |s: int| g(s, p)));
}

/// The representative of a node is a node above it, at the asked level or a root.
pub proof fn lemma_rep(f: Forest, p: int, z: int)
    requires
        f.ok(),
        (f.on)(p),
    ensures
        (f.on)(f.rep(p, z)),
        f.under(f.rep(p, z), p),
        (f.level)(f.rep(p, z)) <= z || (f.up)(f.rep(p, z)) == -1,
    decreases (f.level)(p),
{
    assert(f.hangs(p));
    if !((f.level)(p) <= z || (f.up)(p) == -1) {
        lemma_rep(f, (f.up)(p), z);
    }
}

/// A node of level at most `z` represents what is under it but not under a child of such a
/// level.
proof fn lemma_rep_split(f: Forest, s: int, z: int, p: int, w: spec_fn(int) -> int)
    requires
        f.ok(),
        (f.on)(s),
        (f.on)(p),
        (f.level)(s) <= z,
    ensures
        f.at_rep(s, z, w)(p) == f.at_under(s, w)(p) - sum_over(
            f.kids[s],
            |c: int|
                if (f.level)(c) <= z {
                    f.at_under(c, w)(p)
                } else {
                    0
                },
        ),
    decreases (f.level)(p),
{
    let q = f.kids[s];
    let g = |c: int|
        if (f.level)(c) <= z {
            f.at_under(c, w)(p)
        } else {
            0
        };
    assert(f.hangs(s) && f.bears(s));
    assert(f.hangs(p) && f.bears(p));
    if p == s {
        assert forall|i: int| 0 <= i < q.len() implies g(#[trigger] q[i]) == 0 by {
            assert((f.on)(q[i]) && (f.up)(q[i]) == s);
            assert(f.hangs(q[i]));
            if f.under(q[i], p) {
                lemma_under_level(f, q[i], p);
            }
        }
        lemma_sum_zero(q, g);
        assert(f.rep(s, z) == s);
        assert(f.under(s, s));
    } else {
        let r = (f.up)(p);
        if r == s {
            assert(q.contains(p));
            let k = q.index_of(p);
            assert(q[k] == p);
            assert forall|i: int| 0 <= i < q.len() && i != k implies g(#[trigger] q[i]) == 0 by {
                assert((f.on)(q[i]) && (f.up)(q[i]) == s);
                assert(f.hangs(q[i]));
                assert(q[i] != p);
                if f.under(q[i], p) {
                    assert(f.under(q[i], s));
                    lemma_under_level(f, q[i], s);
                }
            }
            lemma_sum_indicator(q, k, g);
            assert(f.under(s, s));
            assert(f.under(s, p));
            assert(f.under(p, p));
            assert(f.under(p, p));
            assert(f.rep(s, z) == s);
        } else if r == -1 {
            assert forall|i: int| 0 <= i < q.len() implies g(#[trigger] q[i]) == 0 by {
                assert((f.up)(q[i]) == s);
            }
            lemma_sum_zero(q, g);
        } else {
            let wr = |x: int| w(p);
            let h = |c: int|
                if (f.level)(c) <= z {
                    f.at_under(c, wr)(r)
                } else {
                    0
                };
            lemma_rep_split(f, s, z, r, wr);
            assert forall|i: int| 0 <= i < q.len() implies g(#[trigger] q[i]) == h(q[i]) by {
                assert((f.on)(q[i]) && (f.up)(q[i]) == s);
                assert(q[i] != p);
            }
            lemma_sum_ext(q, g, h);
            if (f.level)(p) <= z {
                // p represents itself; r is above it and of a smaller level, so whoever
                // represents r is r itself, and whatever is under s is under such a child
                assert(f.rep(p, z) == p);
                assert(f.rep(r, z) == r);
                assert(r != s);
            } else {
                assert(f.rep(p, z) == f.rep(r, z));
            }
        }
    }
}

/// What a cluster weighs: the aggregate of its representative less those of the children that
/// represent themselves.
pub proof fn lemma_cluster(
    f: Forest,
    a: spec_fn(int) -> int,
    w: spec_fn(int) -> int,
    s: int,
    z: int,
    top: int,
)
    requires
        f.ok(),
        f.all_balanced(a, w),
        (f.on)(s),
        (f.level)(s) <= z,
        forall|c: int| #[trigger] (f.on)(c) ==> (f.level)(c) <= top,
    ensures
        a(s) - sum_over(
            f.kids[s],
            |c: int|
                if (f.level)(c) <= z {
                    a(c)
                } else {
                    0
                },
        ) == total(f.n, f.at_rep(s, z, w)),
{
    let q = f.kids[s];
    assert(f.hangs(s) && f.bears(s));
    let g = |c: int, p: int|
        if (f.level)(c) <= z {
            f.at_under(c, w)(p)
        } else {
            0
        };
    let inner = |c: int| total(f.n, |p: int| g(c, p));
    let ac = |c: int|
        if (f.level)(c) <= z {
            a(c)
        } else {
            0
        };
    assert forall|i: int| 0 <= i < q.len() implies ac(#[trigger] q[i]) == inner(q[i]) by {
        assert((f.on)(q[i]) && (f.up)(q[i]) == s);
        if (f.level)(q[i]) <= z {
            lemma_aggregate(f, a, w, q[i], top);
            lemma_total_ext(f.n, f.at_under(q[i], w), |p: int| g(q[i], p));
        } else {
            lemma_total_zero(f.n, |p: int| g(q[i], p));
        }
    }
    lemma_sum_ext(q, ac, inner);
    lemma_sum_total_swap(q, f.n, g);
    lemma_sum_ext(q, inner, |c: int| total(f.n, |p: int| g(c, p)));
    lemma_aggregate(f, a, w, s, top);
    let below = |p: int| sum_over(q, |c: int| g(c, p));
    let mine = f.at_rep(s, z, w);
    let all = f.at_under(s, w);
    assert forall|p: int| 0 <= p < f.n implies #[trigger] all(p) == mine(p) + below(p) by {
        if (f.on)(p) {
            lemma_rep_split(f, s, z, p, w);
            lemma_sum_ext(
                q,
                |c: int|
                    if (f.level)(c) <= z {
                        f.at_under(c, w)(p)
                    } else {
                        0
                    },
                |c: int| g(c, p),
            );
        } else {
            lemma_sum_zero(q, |c: int| g(c, p));
        }
    }
    lemma_total_add(f.n, mine, below, all);
}

/// `q` runs from `s` up to its root.
pub open spec fn root_path(f: Forest, q: Seq<int>, s: int) -> bool {
    &&& q.len() > 0
    &&& q[0] == s
    &&& q.no_duplicates()
    &&& forall|i: int| 0 <= i < q.len() ==> (f.on)(#[trigger] q[i])
    &&& forall|i: int| 0 <= i < q.len() - 1 ==> (f.up)(#[trigger] q[i]) == q[i + 1]
    &&& (f.up)(q.last()) == -1
}

/// Of the children of `t` exactly those on the path towards `s` are on the path.
proof fn lemma_path_kid(f: Forest, q: Seq<int>, s: int, t: int, i: int)
    requires
        f.ok(),
        root_path(f, q, s),
        (f.on)(t),
        0 <= i < f.kids[t].len(),
        q.contains(f.kids[t][i]),
    ensures
        q.contains(t),
        t != s,
        q.index_of(t) == q.index_of(f.kids[t][i]) + 1,
{
    let c = f.kids[t][i];
    assert(f.bears(t));
    assert((f.up)(c) == t);
    let j = q.index_of(c);
    assert(q[j] == c);
    assert(f.hangs(t));
    if j == q.len() - 1 {
        assert((f.up)(q.last()) == -1);
    }
    assert(q[j + 1] == t);
    let k = q.index_of(t);
    assert(q[k] == t);
    assert(k == j + 1);
}

/// Mass that arrives at `s` arrives at every node above it.
pub proof fn lemma_shift(
    f: Forest,
    a: spec_fn(int) -> int,
    b: spec_fn(int) -> int,
    w: spec_fn(int) -> int,
    v: spec_fn(int) -> int,
    q: Seq<int>,
    s: int,
    d: int,
)
    requires
        f.ok(),
        f.all_balanced(a, w),
        root_path(f, q, s),
        forall|x: int| (f.on)(x) ==> #[trigger] b(x) == a(x) + (if q.contains(x) {
            d
        } else {
            0
        }),
        forall|x: int| (f.on)(x) ==> #[trigger] v(x) == w(x) + (if x == s {
            d
        } else {
            0
        }),
    ensures
        f.all_balanced(b, v),
{
    assert forall|t: int| #[trigger] (f.on)(t) implies f.balanced(b, v, t) by {
        assert(f.balanced(a, w, t));
        lemma_path_sum(f, a, b, q, s, t, d);
        assert(b(t) == a(t) + (if q.contains(t) {
            d
        } else {
            0
        }));
        assert(v(t) == w(t) + (if t == s {
            d
        } else {
            0
        }));
        assert(q.contains(s)) by {
            assert(q[0] == s);
        }
    }
}

/// The children of a node on the path, other than its start, gain once; others gain nothing.
proof fn lemma_path_sum(
    f: Forest,
    a: spec_fn(int) -> int,
    b: spec_fn(int) -> int,
    q: Seq<int>,
    s: int,
    t: int,
    d: int,
)
    requires
        f.ok(),
        root_path(f, q, s),
        (f.on)(t),
        forall|x: int| (f.on)(x) ==> #[trigger] b(x) == a(x) + (if q.contains(x) {
            d
        } else {
            0
        }),
    ensures
        sum_over(f.kids[t], b) == sum_over(f.kids[t], a) + (if q.contains(t) && t != s {
            d
        } else {
            0
        }),
{
    let r = f.kids[t];
    assert(f.bears(t));
    if q.contains(t) && t != s {
        let j = q.index_of(t);
        assert(q[j] == t);
        assert(j > 0);
        let c = q[j - 1];
        assert((f.up)(c) == t);
        assert((f.on)(c));
        assert(f.hangs(c));
        assert(r.contains(c));
        let k = r.index_of(c);
        assert(r[k] == c);
        assert(q.contains(c));
        let g = |x: int|
            if x == c {
                a(x) + d
            } else {
                a(x)
            };
        crate::sums::lemma_sum_change(r, k, a, g);
        assert forall|i: int| 0 <= i < r.len() implies g(#[trigger] r[i]) == b(r[i]) by {
            assert((f.on)(r[i]));
            assert(b(r[i]) == a(r[i]) + (if q.contains(r[i]) {
                d
            } else {
                0
            }));
            if q.contains(r[i]) {
                lemma_path_kid(f, q, s, t, i);
                let l = q.index_of(r[i]);
                assert(q[l] == r[i]);
                assert(l == j - 1);
            }
        }
        lemma_sum_ext(r, g, b);
    } else {
        assert forall|i: int| 0 <= i < r.len() implies a(#[trigger] r[i]) == b(r[i]) by {
            assert((f.on)(r[i]));
            assert(b(r[i]) == a(r[i]) + (if q.contains(r[i]) {
                d
            } else {
                0
            }));
            if q.contains(r[i]) {
                lemma_path_kid(f, q, s, t, i);
            }
        }
        lemma_sum_ext(r, a, b);
    }
}

/// Hanging a root with all its mass under `p`.
pub proof fn lemma_graft(
    f: Forest,
    g: Forest,
    a: spec_fn(int) -> int,
    b: spec_fn(int) -> int,
    w: spec_fn(int) -> int,
    q: Seq<int>,
    p: int,
    s: int,
    i: int,
)
    requires
        f.ok(),
        f.all_balanced(a, w),
        (f.on)(s),
        (f.up)(s) == -1,
        root_path(f, q, p),
        !q.contains(s),
        (f.level)(p) < (f.level)(s),
        0 <= i <= f.kids[p].len(),
        f.n <= f.kids.len(),
        g.n == f.n,
        g.on == f.on,
        g.level == f.level,
        g.kids == f.kids.update(p, f.kids[p].insert(i, s)),
        forall|x: int| (f.on)(x) ==> #[trigger] (g.up)(x) == (if x == s {
            p
        } else {
            (f.up)(x)
        }),
        forall|x: int| (f.on)(x) ==> #[trigger] b(x) == a(x) + (if q.contains(x) {
            a(s)
        } else {
            0
        }),
    ensures
        g.ok(),
        g.all_balanced(b, w),
{
    let old_kids = f.kids[p];
    let new_kids = old_kids.insert(i, s);
    assert((f.on)(p)) by {
        assert(q[0] == p);
    }
    assert(f.bears(p));
    assert forall|j: int| 0 <= j < old_kids.len() implies #[trigger] old_kids[j] != s by {
        assert((f.up)(old_kids[j]) == p);
    }
    assert(g.ok()) by {
        assert forall|c: int| #[trigger] (g.on)(c) implies g.hangs(c) && g.bears(c) by {
            assert((f.on)(c));
            assert(f.hangs(c) && f.bears(c));
            assert((g.up)(c) == (if c == s {
                p
            } else {
                (f.up)(c)
            }));
            if c == s {
                assert(new_kids[i] == s);
                assert(g.kids[p].contains(s));
            } else if (f.up)(c) == p {
                let j = old_kids.index_of(c);
                assert(old_kids[j] == c);
                if j < i {
                    assert(new_kids[j] == c);
                } else {
                    assert(new_kids[j + 1] == c);
                }
                assert(g.kids[p].contains(c));
            }
            if c == p {
                assert forall|j: int, k: int|
                    0 <= j < new_kids.len() && 0 <= k < new_kids.len() && j != k implies new_kids[j]
                    != new_kids[k] by {
                    let j0 = if j <= i {
                        j
                    } else {
                        j - 1
                    };
                    let k0 = if k <= i {
                        k
                    } else {
                        k - 1
                    };
                    if j != i {
                        assert(new_kids[j] == old_kids[j0]);
                    }
                    if k != i {
                        assert(new_kids[k] == old_kids[k0]);
                    }
                }
                assert forall|j: int| 0 <= j < new_kids.len() implies (g.on)(
                    #[trigger] new_kids[j],
                ) && (g.up)(new_kids[j]) == p by {
                    let j0 = if j <= i {
                        j
                    } else {
                        j - 1
                    };
                    if j != i {
                        assert(new_kids[j] == old_kids[j0]);
                        assert((f.on)(old_kids[j0]));
                    }
                }
            } else {
                assert forall|j: int| 0 <= j < g.kids[c].len() implies (g.on)(
                    #[trigger] g.kids[c][j],
                ) && (g.up)(g.kids[c][j]) == c by {
                    assert((f.on)(f.kids[c][j]));
                    assert((f.up)(f.kids[c][j]) == c);
                    assert(f.kids[c][j] != s);
                }
            }
        }
    }
    assert forall|t: int| #[trigger] (g.on)(t) implies g.balanced(b, w, t) by {
        assert((f.on)(t));
        assert(f.balanced(a, w, t));
        lemma_path_sum(f, a, b, q, p, t, a(s));
        if t == p {
            crate::sums::lemma_sum_insert(old_kids, i, s, b);
            assert(b(s) == a(s));
            assert(q.contains(p)) by {
                assert(q[0] == p);
            }
        }
        assert(b(t) == a(t) + (if q.contains(t) {
            a(s)
        } else {
            0
        }));
    }
}

/// Taking a child with all its mass off its parent.
pub proof fn lemma_prune(
    f: Forest,
    g: Forest,
    a: spec_fn(int) -> int,
    b: spec_fn(int) -> int,
    w: spec_fn(int) -> int,
    q: Seq<int>,
    p: int,
    s: int,
    i: int,
)
    requires
        f.ok(),
        f.all_balanced(a, w),
        (f.on)(s),
        (f.up)(s) == p,
        root_path(f, q, p),
        0 <= i < f.kids[p].len(),
        f.kids[p][i] == s,
        f.n <= f.kids.len(),
        g.n == f.n,
        g.on == f.on,
        g.level == f.level,
        g.kids == f.kids.update(p, f.kids[p].remove(i)),
        forall|x: int| (f.on)(x) ==> #[trigger] (g.up)(x) == (if x == s {
            -1
        } else {
            (f.up)(x)
        }),
        forall|x: int| (f.on)(x) ==> #[trigger] b(x) == a(x) - (if q.contains(x) {
            a(s)
        } else {
            0
        }),
    ensures
        g.ok(),
        g.all_balanced(b, w),
        !q.contains(s),
{
    let old_kids = f.kids[p];
    let new_kids = old_kids.remove(i);
    assert((f.on)(p)) by {
        assert(q[0] == p);
    }
    assert(f.bears(p) && f.hangs(s));
    assert(!q.contains(s)) by {
        if q.contains(s) {
            lemma_path_kid(f, q, p, p, i);
        }
    }
    assert(g.ok()) by {
        assert forall|c: int| #[trigger] (g.on)(c) implies g.hangs(c) && g.bears(c) by {
            assert((f.on)(c));
            assert(f.hangs(c) && f.bears(c));
            assert((g.up)(c) == (if c == s {
                -1
            } else {
                (f.up)(c)
            }));
            if c != s && (f.up)(c) == p {
                let j = old_kids.index_of(c);
                assert(old_kids[j] == c);
                assert(j != i);
                if j < i {
                    assert(new_kids[j] == c);
                } else {
                    assert(new_kids[j - 1] == c);
                }
                assert(g.kids[p].contains(c));
            }
            if c == p {
                assert forall|j: int, k: int|
                    0 <= j < new_kids.len() && 0 <= k < new_kids.len() && j != k implies new_kids[j]
                    != new_kids[k] by {
                    let j0 = if j < i {
                        j
                    } else {
                        j + 1
                    };
                    let k0 = if k < i {
                        k
                    } else {
                        k + 1
                    };
                    assert(new_kids[j] == old_kids[j0] && new_kids[k] == old_kids[k0]);
                }
                assert forall|j: int| 0 <= j < new_kids.len() implies (g.on)(
                    #[trigger] new_kids[j],
                ) && (g.up)(new_kids[j]) == p by {
                    let j0 = if j < i {
                        j
                    } else {
                        j + 1
                    };
                    assert(new_kids[j] == old_kids[j0]);
                    assert((f.on)(old_kids[j0]));
                    assert(old_kids[j0] != old_kids[i]);
                }
            } else {
                assert forall|j: int| 0 <= j < g.kids[c].len() implies (g.on)(
                    #[trigger] g.kids[c][j],
                ) && (g.up)(g.kids[c][j]) == c by {
                    assert((f.on)(f.kids[c][j]));
                    assert((f.up)(f.kids[c][j]) == c);
                    assert(f.kids[c][j] != s);
                }
            }
        }
    }
    assert forall|t: int| #[trigger] (g.on)(t) implies g.balanced(b, w, t) by {
        assert((f.on)(t));
        assert(f.balanced(a, w, t));
        assert forall|x: int| (f.on)(x) implies #[trigger] b(x) == a(x) + (if q.contains(x) {
            -a(s)
        } else {
            0
        }) by {
            assert(b(x) == a(x) - (if q.contains(x) {
                a(s)
            } else {
                0
            }));
        }
        lemma_path_sum(f, a, b, q, p, t, -a(s));
        if t == p {
            crate::sums::lemma_sum_remove(old_kids, i, b);
            assert(b(s) == a(s));
            assert(q.contains(p)) by {
                assert(q[0] == p);
            }
        }
        assert(b(t) == a(t) - (if q.contains(t) {
            a(s)
        } else {
            0
        }));
    }
}

} // verus!
