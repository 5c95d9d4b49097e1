//! Finite sums and small counting facts.
use vstd::prelude::*;

verus! {

/// Distinct numbers below `n` are at most `n` many.
pub proof fn lemma_no_dup_bound(q: Seq<int>, n: int)
    requires
        n >= 0,
        q.no_duplicates(),
        forall|i: int| 0 <= i < q.len() ==> 0 <= #[trigger] q[i] < n,
    ensures
        q.len() <= n,
{
    q.unique_seq_to_set();
    let all = vstd::set_lib::set_int_range(0, n);
    vstd::set_lib::lemma_int_range(0, n);
    assert(q.to_set().subset_of(all));
    vstd::set_lib::lemma_len_subset(q.to_set(), all);
}

/// `f(0) + ... + f(n - 1)`.
pub open spec fn total(n: int, f: spec_fn(int) -> int) -> int
    decreases n,
{
    if n <= 0 {
        0
    } else {
        total(n - 1, f) + f(n - 1)
    }
}

/// `f(q[0]) + ... + f(q[last])`.
pub open spec fn sum_over(q: Seq<int>, f: spec_fn(int) -> int) -> int
    decreases q.len(),
{
    if q.len() == 0 {
        0
    } else {
        sum_over(q.drop_last(), f) + f(q.last())
    }
}

/// Equal summands, equal sums.
pub proof fn lemma_total_ext(n: int, f: spec_fn(int) -> int, g: spec_fn(int) -> int)
    requires
        forall|i: int| 0 <= i < n ==> #[trigger] f(i) == g(i),
    ensures
        total(n, f) == total(n, g),
    decreases n,
{
    if n > 0 {
        lemma_total_ext(n - 1, f, g);
        assert(f(n - 1) == g(n - 1));
    }
}

/// Summands that differ at one place only.
pub proof fn lemma_total_change(n: int, f: spec_fn(int) -> int, g: spec_fn(int) -> int, k: int)
    requires
        0 <= k < n,
        forall|i: int| 0 <= i < n && i != k ==> #[trigger] f(i) == g(i),
    ensures
        total(n, g) == total(n, f) + g(k) - f(k),
    decreases n,
{
    if k == n - 1 {
        lemma_total_ext(n - 1, f, g);
    } else {
        lemma_total_change(n - 1, f, g, k);
        assert(f(n - 1) == g(n - 1));
    }
}

pub proof fn lemma_total_le(n: int, f: spec_fn(int) -> int, g: spec_fn(int) -> int)
    requires
        forall|i: int| 0 <= i < n ==> #[trigger] f(i) <= g(i),
    ensures
        total(n, f) <= total(n, g),
    decreases n,
{
    if n > 0 {
        lemma_total_le(n - 1, f, g);
        assert(f(n - 1) <= g(n - 1));
    }
}

pub proof fn lemma_total_zero(n: int, f: spec_fn(int) -> int)
    requires
        forall|i: int| 0 <= i < n ==> #[trigger] f(i) == 0,
    ensures
        total(n, f) == 0,
    decreases n,
{
    if n > 0 {
        lemma_total_zero(n - 1, f);
        assert(f(n - 1) == 0);
    }
}

pub proof fn lemma_total_nonneg(n: int, f: spec_fn(int) -> int)
    requires
        forall|i: int| 0 <= i < n ==> #[trigger] f(i) >= 0,
    ensures
        total(n, f) >= 0,
    decreases n,
{
    if n > 0 {
        lemma_total_nonneg(n - 1, f);
        assert(f(n - 1) >= 0);
    }
}

/// Of non-negative summands none exceeds the sum.
pub proof fn lemma_total_member(n: int, f: spec_fn(int) -> int, k: int)
    requires
        0 <= k < n,
        forall|i: int| 0 <= i < n ==> #[trigger] f(i) >= 0,
    ensures
        f(k) <= total(n, f),
    decreases n,
{
    assert(f(n - 1) >= 0);
    if k == n - 1 {
        lemma_total_nonneg(n - 1, f);
    } else {
        lemma_total_member(n - 1, f, k);
    }
}

pub proof fn lemma_total_add(
    n: int,
    f: spec_fn(int) -> int,
    g: spec_fn(int) -> int,
    h: spec_fn(int) -> int,
)
    requires
        forall|i: int| 0 <= i < n ==> #[trigger] h(i) == f(i) + g(i),
    ensures
        total(n, h) == total(n, f) + total(n, g),
    decreases n,
{
    if n > 0 {
        lemma_total_add(n - 1, f, g, h);
        assert(h(n - 1) == f(n - 1) + g(n - 1));
    }
}

pub proof fn lemma_total_extend(n: int, m: int, f: spec_fn(int) -> int)
    requires
        0 <= n <= m,
        forall|i: int| n <= i < m ==> #[trigger] f(i) == 0,
    ensures
        total(m, f) == total(n, f),
    decreases m,
{
    if n < m {
        lemma_total_extend(n, m - 1, f);
        assert(f(m - 1) == 0);
    }
}

pub proof fn lemma_total_scale(n: int, c: int, f: spec_fn(int) -> int, g: spec_fn(int) -> int)
    requires
        forall|i: int| 0 <= i < n ==> #[trigger] g(i) == c * f(i),
    ensures
        total(n, g) == c * total(n, f),
    decreases n,
{
    if n > 0 {
        lemma_total_scale(n - 1, c, f, g);
        assert(g(n - 1) == c * f(n - 1));
        assert(c * (total(n - 1, f) + f(n - 1)) == c * total(n - 1, f) + c * f(n - 1))
            by (nonlinear_arith);
    } else {
        assert(c * 0 == 0);
    }
}

/// A double sum may be taken in either order.
pub proof fn lemma_total_swap(n: int, m: int, g: spec_fn(int, int) -> int)
    ensures
        total(n, |i: int| total(m, |j: int| g(i, j))) == total(
            m,
            |j: int| total(n, |i: int| g(i, j)),
        ),
    decreases n,
{
    let rows = |i: int| total(m, |j: int| g(i, j));
    let cols = |j: int| total(n, |i: int| g(i, j));
    if n <= 0 {
        assert forall|j: int| 0 <= j < m implies #[trigger] cols(j) == 0 by {}
        lemma_total_zero(m, cols);
    } else {
        let cols1 = |j: int| total(n - 1, |i: int| g(i, j));
        let last = |j: int| g(n - 1, j);
        lemma_total_swap(n - 1, m, g);
        assert forall|j: int| 0 <= j < m implies #[trigger] cols(j) == cols1(j) + last(j) by {
            let f = |i: int| g(i, j);
            assert(total(n, f) == total(n - 1, f) + f(n - 1));
        }
        lemma_total_add(m, cols1, last, cols);
        assert(total(n, rows) == total(n - 1, rows) + rows(n - 1));
        lemma_total_ext(m, last, |j: int| g(n - 1, j));
    }
}

pub proof fn lemma_sum_ext(q: Seq<int>, f: spec_fn(int) -> int, g: spec_fn(int) -> int)
    requires
        forall|i: int| 0 <= i < q.len() ==> f(#[trigger] q[i]) == g(q[i]),
    ensures
        sum_over(q, f) == sum_over(q, g),
    decreases q.len(),
{
    if q.len() > 0 {
        assert(q.last() == q[q.len() - 1]);
        assert forall|i: int| 0 <= i < q.drop_last().len() implies f(#[trigger] q.drop_last()[i])
            == g(q.drop_last()[i]) by {
            assert(q.drop_last()[i] == q[i]);
        }
        lemma_sum_ext(q.drop_last(), f, g);
    }
}

/// At least one per member, at least as much as there are members.
pub proof fn lemma_sum_at_least(q: Seq<int>, f: spec_fn(int) -> int)
    requires
        forall|i: int| 0 <= i < q.len() ==> f(#[trigger] q[i]) >= 1,
    ensures
        sum_over(q, f) >= q.len(),
    decreases q.len(),
{
    if q.len() > 0 {
        assert(q.last() == q[q.len() - 1]);
        assert forall|i: int| 0 <= i < q.drop_last().len() implies f(#[trigger] q.drop_last()[i])
            >= 1 by {
            assert(q.drop_last()[i] == q[i]);
        }
        lemma_sum_at_least(q.drop_last(), f);
    }
}

pub proof fn lemma_sum_concat(a: Seq<int>, b: Seq<int>, f: spec_fn(int) -> int)
    ensures
        sum_over(a + b, f) == sum_over(a, f) + sum_over(b, f),
    decreases b.len(),
{
    if b.len() == 0 {
        assert(a + b =~= a);
    } else {
        assert((a + b).drop_last() =~= a + b.drop_last());
        lemma_sum_concat(a, b.drop_last(), f);
    }
}

pub proof fn lemma_sum_one(x: int, f: spec_fn(int) -> int)
    ensures
        sum_over(seq![x], f) == f(x),
{
    assert(seq![x].drop_last() =~= Seq::<int>::empty());
    assert(sum_over(Seq::<int>::empty(), f) == 0);
}

pub proof fn lemma_sum_insert(q: Seq<int>, i: int, x: int, f: spec_fn(int) -> int)
    requires
        0 <= i <= q.len(),
    ensures
        sum_over(q.insert(i, x), f) == sum_over(q, f) + f(x),
{
    let a = q.take(i);
    let b = q.skip(i);
    assert(q =~= a + b);
    assert(q.insert(i, x) =~= a + seq![x] + b);
    lemma_sum_concat(a, b, f);
    lemma_sum_concat(a + seq![x], b, f);
    lemma_sum_concat(a, seq![x], f);
    lemma_sum_one(x, f);
}

pub proof fn lemma_sum_remove(q: Seq<int>, i: int, f: spec_fn(int) -> int)
    requires
        0 <= i < q.len(),
    ensures
        sum_over(q.remove(i), f) == sum_over(q, f) - f(q[i]),
{
    assert(q.remove(i).insert(i, q[i]) =~= q);
    lemma_sum_insert(q.remove(i), i, q[i], f);
}

/// Of summands without repetition only the one at `k` changes.
pub proof fn lemma_sum_change(q: Seq<int>, k: int, f: spec_fn(int) -> int, g: spec_fn(int) -> int)
    requires
        0 <= k < q.len(),
        q.no_duplicates(),
        forall|x: int| x != q[k] ==> #[trigger] f(x) == g(x),
    ensures
        sum_over(q, g) == sum_over(q, f) + g(q[k]) - f(q[k]),
{
    lemma_sum_remove(q, k, f);
    lemma_sum_remove(q, k, g);
    let r = q.remove(k);
    assert forall|i: int| 0 <= i < r.len() implies f(#[trigger] r[i]) == g(r[i]) by {
        let j = if i < k {
            i
        } else {
            i + 1
        };
        assert(r[i] == q[j]);
    }
    lemma_sum_ext(r, f, g);
}

/// A sum over a list of sums is a sum of sums over the list.
pub proof fn lemma_sum_total_swap(q: Seq<int>, n: int, g: spec_fn(int, int) -> int)
    ensures
        sum_over(q, |c: int| total(n, |p: int| g(c, p))) == total(
            n,
            |p: int| sum_over(q, |c: int| g(c, p)),
        ),
    decreases q.len(),
{
    let inner = |c: int| total(n, |p: int| g(c, p));
    let outer = |p: int| sum_over(q, |c: int| g(c, p));
    if q.len() == 0 {
        assert forall|p: int| 0 <= p < n implies #[trigger] outer(p) == 0 by {}
        lemma_total_zero(n, outer);
    } else {
        let q1 = q.drop_last();
        lemma_sum_total_swap(q1, n, g);
        let outer1 = |p: int| sum_over(q1, |c: int| g(c, p));
        let last = |p: int| g(q.last(), p);
        assert forall|p: int| 0 <= p < n implies #[trigger] outer(p) == outer1(p) + last(p) by {
            let f = |c: int| g(c, p);
            assert(sum_over(q, f) == sum_over(q1, f) + f(q.last()));
        }
        lemma_total_add(n, outer1, last, outer);
        lemma_total_ext(n, last, |p: int| g(q.last(), p));
    }
}

/// Of a list without repetition, at most one member satisfies what a single number does.
pub proof fn lemma_sum_indicator(q: Seq<int>, k: int, f: spec_fn(int) -> int)
    requires
        0 <= k < q.len(),
        q.no_duplicates(),
        forall|i: int| 0 <= i < q.len() && i != k ==> f(#[trigger] q[i]) == 0,
    ensures
        sum_over(q, f) == f(q[k]),
{
    let z = |x: int| 0int;
    lemma_sum_zero(q, z);
    let g = |x: int|
        if x == q[k] {
            f(q[k])
        } else {
            0
        };
    lemma_sum_change(q, k, z, g);
    assert forall|i: int| 0 <= i < q.len() implies f(#[trigger] q[i]) == g(q[i]) by {}
    lemma_sum_ext(q, f, g);
}

pub proof fn lemma_sum_zero(q: Seq<int>, f: spec_fn(int) -> int)
    requires
        forall|i: int| 0 <= i < q.len() ==> f(#[trigger] q[i]) == 0,
    ensures
        sum_over(q, f) == 0,
    decreases q.len(),
{
    if q.len() > 0 {
        assert(q.last() == q[q.len() - 1]);
        assert forall|i: int| 0 <= i < q.drop_last().len() implies f(#[trigger] q.drop_last()[i])
            == 0 by {
            assert(q.drop_last()[i] == q[i]);
        }
        lemma_sum_zero(q.drop_last(), f);
    }
}

/// Part of the summands, each no larger, sum up to no more.
pub proof fn lemma_sum_prefix(q: Seq<int>, i: int, f: spec_fn(int) -> int, g: spec_fn(int) -> int)
    requires
        0 <= i <= q.len(),
        forall|j: int| 0 <= j < q.len() ==> 0 <= f(#[trigger] q[j]) <= g(q[j]),
    ensures
        0 <= sum_over(q.take(i), f) <= sum_over(q, g),
    decreases q.len(),
{
    if i < q.len() {
        let r = q.drop_last();
        assert forall|j: int| 0 <= j < r.len() implies 0 <= f(#[trigger] r[j]) <= g(r[j]) by {
            assert(r[j] == q[j]);
        }
        lemma_sum_prefix(r, i, f, g);
        assert(r.take(i) =~= q.take(i));
        assert(q[q.len() - 1] == q.last());
    } else if q.len() > 0 {
        assert(q.take(i) =~= q);
        let r = q.drop_last();
        assert forall|j: int| 0 <= j < r.len() implies 0 <= f(#[trigger] r[j]) <= g(r[j]) by {
            assert(r[j] == q[j]);
        }
        lemma_sum_prefix(r, r.len() as int, f, g);
        assert(r.take(r.len() as int) =~= r);
        assert(q[q.len() - 1] == q.last());
    } else {
        assert(q.take(i) =~= q);
    }
}

/// One more summand.
pub proof fn lemma_sum_push(q: Seq<int>, i: int, f: spec_fn(int) -> int)
    requires
        0 <= i < q.len(),
    ensures
        sum_over(q.take(i + 1), f) == sum_over(q.take(i), f) + f(q[i]),
{
    assert(q.take(i + 1).drop_last() =~= q.take(i));
    assert(q.take(i + 1).last() == q[i]);
}

/// A sum over a range whose summands vanish outside a list is the sum over the list.
pub proof fn lemma_total_as_sum(n: int, q: Seq<int>, f: spec_fn(int) -> int)
    requires
        q.no_duplicates(),
        forall|i: int| 0 <= i < q.len() ==> 0 <= #[trigger] q[i] < n,
        forall|x: int| 0 <= x < n && !q.contains(x) ==> #[trigger] f(x) == 0,
    ensures
        total(n, f) == sum_over(q, f),
    decreases q.len(),
{
    if q.len() == 0 {
        assert forall|x: int| 0 <= x < n implies #[trigger] f(x) == 0 by {
            assert(!q.contains(x));
        }
        lemma_total_zero(n, f);
    } else {
        let r = q.drop_last();
        let e = q.last();
        assert(q[q.len() - 1] == e);
        let g = |x: int|
            if x == e {
                0
            } else {
                f(x)
            };
        assert forall|i: int| 0 <= i < r.len() implies 0 <= #[trigger] r[i] < n by {
            assert(r[i] == q[i]);
        }
        assert forall|x: int| 0 <= x < n && !r.contains(x) implies #[trigger] g(x) == 0 by {
            if x != e && q.contains(x) {
                let i = q.index_of(x);
                assert(r[i] == x);
            }
        }
        lemma_total_as_sum(n, r, g);
        lemma_total_change(n, g, f, e);
        assert forall|i: int| 0 <= i < r.len() implies f(#[trigger] r[i]) == g(r[i]) by {
            assert(r[i] == q[i]);
        }
        lemma_sum_ext(r, f, g);
    }
}

} // verus!
