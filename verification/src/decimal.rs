//! Ordering numbers by their decimal renderings.
//!
//! `10` comes before `9` here, as strings do. Exact distance ties are broken this way, so that
//! the shape of an index is a function of the points and the operations alone.
use std::cmp::Ordering;
use vstd::prelude::*;

verus! {

/// The decimal digits of `n` as ASCII, most significant first; no leading zero but for `0`.
pub open spec fn digits(n: int) -> Seq<u8>
    decreases n,
{
    if n < 10 {
        seq![digit(n)]
    } else {
        digits(n / 10).push(digit(n % 10))
    }
}

pub open spec fn digit(d: int) -> u8 {
    (48 + d) as u8
}

/// `a` is before `b` in dictionary order.
pub open spec fn before(a: Seq<u8>, b: Seq<u8>) -> bool
    decreases a.len(),
{
    if b.len() == 0 {
        false
    } else if a.len() == 0 {
        true
    } else if a[0] != b[0] {
        a[0] < b[0]
    } else {
        before(a.skip(1), b.skip(1))
    }
}

/// The decimal rendering of `a` is before that of `b` in dictionary order.
pub open spec fn decimal_before(a: int, b: int) -> bool {
    before(digits(a), digits(b))
}

/// The value that ASCII digits spell.
spec fn value_of(s: Seq<u8>) -> int
    decreases s.len(),
{
    if s.len() == 0 {
        0
    } else {
        value_of(s.drop_last()) * 10 + (s.last() - 48)
    }
}

proof fn digits_value(n: int)
    requires
        0 <= n,
    ensures
        value_of(digits(n)) == n,
        digits(n).len() >= 1,
    decreases n,
{
    let s = digits(n);
    if n < 10 {
        assert(s.drop_last() =~= Seq::<u8>::empty());
        assert(value_of(s.drop_last()) == 0);
    } else {
        digits_value(n / 10);
        assert(s.drop_last() =~= digits(n / 10));
    }
}

/// Renderings tell numbers apart.
pub proof fn lemma_digits_injective(a: int, b: int)
    requires
        0 <= a,
        0 <= b,
        digits(a) == digits(b),
    ensures
        a == b,
{
    digits_value(a);
    digits_value(b);
}

proof fn before_total(a: Seq<u8>, b: Seq<u8>)
    ensures
        a == b || before(a, b) || before(b, a),
        !(before(a, b) && before(b, a)),
        a == b ==> !before(a, b),
    decreases a.len(),
{
    if a.len() == 0 && b.len() == 0 {
        assert(a =~= b);
    } else if a.len() > 0 && b.len() > 0 && a[0] == b[0] {
        before_total(a.skip(1), b.skip(1));
        if a.skip(1) == b.skip(1) {
            assert(a =~= seq![a[0]] + a.skip(1));
            assert(b =~= seq![b[0]] + b.skip(1));
        }
        if a == b {
            assert(a.skip(1) == b.skip(1));
        }
    }
}

proof fn before_trans(a: Seq<u8>, b: Seq<u8>, c: Seq<u8>)
    requires
        before(a, b),
        before(b, c),
    ensures
        before(a, c),
    decreases a.len(),
{
    if a.len() > 0 && a[0] == b[0] && b[0] == c[0] {
        before_trans(a.skip(1), b.skip(1), c.skip(1));
    }
}

/// The order is total on numbers: of two distinct ones exactly one comes first.
pub proof fn lemma_decimal_total(a: int, b: int)
    requires
        0 <= a,
        0 <= b,
    ensures
        a == b || decimal_before(a, b) || decimal_before(b, a),
        !(decimal_before(a, b) && decimal_before(b, a)),
        !decimal_before(a, a),
{
    before_total(digits(a), digits(b));
    before_total(digits(a), digits(a));
    if digits(a) == digits(b) {
        lemma_digits_injective(a, b);
    }
}

/// The order is transitive.
pub proof fn lemma_decimal_trans(a: int, b: int, c: int)
    requires
        decimal_before(a, b),
        decimal_before(b, c),
    ensures
        decimal_before(a, c),
{
    before_trans(digits(a), digits(b), digits(c));
}

/// The decimal digits of `n`.
pub fn write_decimal(n: u64) -> (out: Vec<u8>)
    ensures
        out@ == digits(n as int),
{
    let mut tail: Vec<u8> = Vec::new();
    let mut rest: u64 = n;
    while rest >= 10
        invariant
            digits(n as int) == digits(rest as int) + tail@.reverse(),
        decreases rest,
    {
        let ghost was = tail@;
        let d: u8 = (rest % 10) as u8;
        tail.push(48 + d);
        proof {
            assert(tail@.reverse() =~= seq![(48 + d) as u8] + was.reverse());
            assert(digits(rest as int) == digits(rest as int / 10).push(digit(rest as int % 10)));
            assert(digits((rest / 10) as int) + tail@.reverse() =~= digits(rest as int)
                + was.reverse());
        }
        rest = rest / 10;
    }
    let mut out: Vec<u8> = Vec::new();
    out.push(48 + rest as u8);
    let mut i: usize = tail.len();
    proof {
        assert(out@ =~= digits(rest as int));
        assert(tail@.reverse().take(0) =~= Seq::<u8>::empty());
        assert(out@ =~= digits(rest as int) + tail@.reverse().take(0));
    }
    while i > 0
        invariant
            i <= tail@.len(),
            out@ == digits(rest as int) + tail@.reverse().take(tail@.len() - i),
        decreases i,
    {
        i = i - 1;
        out.push(tail[i]);
        proof {
            let k = tail@.len() - i;
            assert(tail@.reverse()[k - 1] == tail@[i as int]);
            assert(tail@.reverse().take(k) =~= tail@.reverse().take(k - 1).push(tail@[i as int]));
        }
    }
    proof {
        assert(tail@.reverse().take(tail@.len() as int) =~= tail@.reverse());
    }
    out
}

/// Which of two numbers has the decimal rendering that comes first.
pub fn cmp_decimal(a: u64, b: u64) -> (o: Ordering)
    ensures
        match o {
            Ordering::Less => decimal_before(i(a), i(b)),
            Ordering::Equal => a == b,
            Ordering::Greater => decimal_before(i(b), i(a)),
        },
        a == b ==> o is Equal,
{
    if a == b {
        return Ordering::Equal;
    }
    if first_in_decimal(a, b) {
        Ordering::Less
    } else {
        Ordering::Greater
    }
}

/// A machine number as a mathematical one.
pub open spec fn i(n: u64) -> int {
    n as int
}

/// Is the decimal rendering of `a` before that of `b`?
pub fn first_in_decimal(a: u64, b: u64) -> (r: bool)
    ensures
        r == decimal_before(a as int, b as int),
        !r && a != b ==> decimal_before(b as int, a as int),
{
    let da = write_decimal(a);
    let db = write_decimal(b);
    proof {
        lemma_decimal_total(a as int, b as int);
        assert(da@.skip(0) =~= da@);
        assert(db@.skip(0) =~= db@);
    }
    let mut k: usize = 0;
    loop
        invariant
            k <= da@.len(),
            k <= db@.len(),
            before(digits(a as int), digits(b as int)) == before(
                da@.skip(k as int),
                db@.skip(k as int),
            ),
            a == b || decimal_before(a as int, b as int) || decimal_before(b as int, a as int),
        decreases da@.len() - k,
    {
        if k >= db.len() {
            return false;
        }
        if k >= da.len() {
            return true;
        }
        if da[k] != db[k] {
            return da[k] < db[k];
        }
        proof {
            assert(da@.skip(k as int).skip(1) =~= da@.skip(k + 1));
            assert(db@.skip(k as int).skip(1) =~= db@.skip(k + 1));
        }
        k = k + 1;
    }
}

} // verus!
