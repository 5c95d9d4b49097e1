//! What a caller can rely on of the text of a request: how numbers, lists, search terms and tile
//! addresses are read.
use crate::api::ApiError;
use crate::collection::Collection;
use crate::decimal::{digit, digits};
use crate::request::{answered, count_meant, filter_meant, filtered, filters_of, format_meant, given,
    ids_meant, is_filter, last_dot, listed_at, pairs, param, param_from, pieces, row_meant, term_meant,
    terms_meant, tile_refusal, Wanted};
use crate::text::{all_digits, integer, is_digit, is_white, lowercased, number, parsed, place_of, signed,
    texts, trimmed, unsigned, value_of, white_from, white_to};
use vstd::prelude::*;

verus! {

/// **A number that is written is read back.**
pub proof fn law_number(n: int)
    requires
        n >= 0,
    ensures
        parsed(number(n)) == Some(n),
        signed(integer(n)) == Some(n),
        n > 0 ==> signed(integer(-n)) == Some(-n),
{
    lemma_number(n);
    let q = number(n);
    assert(is_digit(q[0]));
    assert(q[0] != '+' && q[0] != '-');
    assert(unsigned(q) == q);
    if n > 0 {
        reveal_strlit("-");
        let s = integer(-n);
        assert(s[0] == '-');
        assert(s.skip(1) =~= q);
    }
}

proof fn lemma_number(n: int)
    requires
        n >= 0,
    ensures
        all_digits(number(n)),
        value_of(number(n)) == n,
    decreases n,
{
    let q = number(n);
    if n < 10 {
        assert(digits(n) =~= seq![digit(n)]);
        assert(q =~= seq![digit(n) as char]);
        assert(q.drop_last() =~= Seq::<char>::empty());
        assert(value_of(q.drop_last()) == 0);
        assert(digit(n) == 48 + n);
        assert(q.last() as int == 48 + n);
    } else {
        lemma_number(n / 10);
        let p = number(n / 10);
        assert(digits(n) == digits(n / 10).push(digit(n % 10)));
        assert(q.drop_last() =~= p);
        assert(digit(n % 10) == 48 + n % 10);
        assert(q.last() as int == 48 + n % 10);
        assert forall|i: int| 0 <= i < q.len() implies is_digit(#[trigger] q[i]) by {
            if i < p.len() {
                assert(q[i] == p[i]);
            }
        }
    }
}

/// **A parameter is the first of its name.**
pub proof fn law_param(q: Seq<(String, String)>, name: Seq<char>, i: int)
    ensures
        0 <= i < q.len() && q[i].0@ == name && (forall|j: int|
            0 <= j < i ==> (#[trigger] q[j]).0@ != name) ==> param(q, name) == Some(q[i].1@),
        (forall|j: int| 0 <= j < q.len() ==> (#[trigger] q[j]).0@ != name) ==> param(q, name) is None,
{
    if 0 <= i < q.len() && q[i].0@ == name && (forall|j: int|
        0 <= j < i ==> (#[trigger] q[j]).0@ != name) {
        lemma_param(q, name, i, 0);
    }
    if forall|j: int| 0 <= j < q.len() ==> (#[trigger] q[j]).0@ != name {
        lemma_no_param(q, name, 0);
    }
}

proof fn lemma_param(q: Seq<(String, String)>, name: Seq<char>, i: int, k: int)
    requires
        0 <= k <= i < q.len(),
        q[i].0@ == name,
        forall|j: int| 0 <= j < i ==> (#[trigger] q[j]).0@ != name,
    ensures
        param_from(q, name, k) == Some(q[i].1@),
    decreases i - k,
{
    if k < i {
        assert(q[k].0@ != name);
        lemma_param(q, name, i, k + 1);
    }
}

proof fn lemma_no_param(q: Seq<(String, String)>, name: Seq<char>, k: int)
    requires
        0 <= k <= q.len(),
        forall|j: int| 0 <= j < q.len() ==> (#[trigger] q[j]).0@ != name,
    ensures
        param_from(q, name, k) is None,
    decreases q.len() - k,
{
    if k < q.len() {
        assert(q[k].0@ != name);
        lemma_no_param(q, name, k + 1);
    }
}

/// **A count is what is written, if it is a number that fits; else the default.**
pub proof fn law_count(v: Option<Seq<char>>, otherwise: usize, n: usize)
    ensures
        v == Some(number(n as int)) ==> count_meant(v, otherwise) == n,
        v is None || parsed(v->0) is None ==> count_meant(v, otherwise) == otherwise,
        v is Some && parsed(v->0) is Some && parsed(v->0)->0 > usize::MAX ==> count_meant(v, otherwise)
            == otherwise,
{
    law_number(n as int);
}

/// **Filters are the parameters with the prefix and a value**, without the prefix, in order.
pub proof fn law_filter_params(q: Seq<(String, String)>, k: int, name: Seq<char>, v: Seq<char>)
    requires
        0 <= k <= q.len(),
    ensures
        filters_of(q, k).contains((name, v)) <==> v.len() > 0 && exists|i: int|
            0 <= i < k && (#[trigger] q[i]).0@ == seq!['f', '.'] + name && q[i].1@ == v,
    decreases k,
{
    if k > 0 {
        law_filter_params(q, k - 1, name, v);
        let (s, t) = (filters_of(q, k - 1), filters_of(q, k));
        let p = q[k - 1];
        if is_filter(p) {
            assert(p.0@ =~= seq!['f', '.'] + p.0@.skip(2));
        }
        if p.0@ == seq!['f', '.'] + name {
            assert(p.0@.skip(2) =~= name);
        }
        if t.contains((name, v)) {
            let j = t.index_of((name, v));
            if j < s.len() {
                assert(s[j] == (name, v));
                let i = choose|i: int|
                    0 <= i < k - 1 && (#[trigger] q[i]).0@ == seq!['f', '.'] + name && q[i].1@ == v;
                assert(0 <= i < k && q[i].0@ == seq!['f', '.'] + name);
            } else {
                assert(q[k - 1].0@ == seq!['f', '.'] + name && q[k - 1].1@ == v);
            }
        }
        if v.len() > 0 && exists|i: int|
            0 <= i < k && (#[trigger] q[i]).0@ == seq!['f', '.'] + name && q[i].1@ == v {
            let i = choose|i: int|
                0 <= i < k && (#[trigger] q[i]).0@ == seq!['f', '.'] + name && q[i].1@ == v;
            if i < k - 1 {
                assert(0 <= i < k - 1 && q[i].0@ == seq!['f', '.'] + name);
                let j = s.index_of((name, v));
                assert(t[j] == (name, v));
            } else {
                assert(is_filter(p));
                assert(t[s.len() as int] == (name, v));
            }
        }
    }
}

/// Where a character stands first.
proof fn lemma_place(q: Seq<char>, c: char, i: int, k: int)
    requires
        0 <= i <= k <= q.len(),
        forall|j: int| i <= j < k ==> #[trigger] q[j] != c,
        k < q.len() ==> q[k] == c,
    ensures
        place_of(q, c, i) == k,
    decreases k - i,
{
    if i < k {
        assert(q[i] != c);
        lemma_place(q, c, i + 1, k);
    }
}

proof fn lemma_place_bounds(q: Seq<char>, c: char, i: int)
    requires
        0 <= i <= q.len(),
    ensures
        i <= place_of(q, c, i) <= q.len(),
        place_of(q, c, i) < q.len() ==> q[place_of(q, c, i)] == c,
        forall|j: int| i <= j < place_of(q, c, i) ==> #[trigger] q[j] != c,
    decreases q.len() - i,
{
    if i < q.len() && q[i] != c {
        lemma_place_bounds(q, c, i + 1);
    }
}

proof fn lemma_place_shift(p: Seq<char>, q: Seq<char>, c: char, i: int)
    requires
        0 <= i <= q.len(),
    ensures
        place_of(p + q, c, p.len() + i) == p.len() + place_of(q, c, i),
    decreases q.len() - i,
{
    if i < q.len() {
        assert((p + q)[p.len() + i] == q[i]);
        if q[i] != c {
            lemma_place_shift(p, q, c, i + 1);
        }
    }
}

proof fn lemma_pieces_shift(p: Seq<char>, q: Seq<char>, i: int)
    requires
        0 <= i <= q.len(),
    ensures
        pieces(p + q, p.len() + i) == pieces(q, i),
    decreases q.len() - i,
{
    lemma_place_shift(p, q, ',', i);
    lemma_place_bounds(q, ',', i);
    let j = place_of(q, ',', i);
    if j < q.len() {
        lemma_pieces_shift(p, q, j + 1);
    }
    assert((p + q).subrange(p.len() + i, p.len() + j) =~= q.subrange(i, j));
}

/// **A list is split at its commas, and empty parts are left out**: a part without commas stands
/// for itself, and a list behind another for what both hold.
pub proof fn law_pieces(a: Seq<char>, b: Seq<char>)
    requires
        !a.contains(','),
    ensures
        pieces(a, 0) == (if a.len() == 0 {
            Seq::<Seq<char>>::empty()
        } else {
            seq![a]
        }),
        pieces(a + seq![','] + b, 0) == pieces(a, 0) + pieces(b, 0),
{
    assert forall|j: int| 0 <= j < a.len() implies #[trigger] a[j] != ',' by {
        assert(a.contains(a[j]));
    }
    lemma_place(a, ',', 0, a.len() as int);
    assert(a.subrange(0, a.len() as int) =~= a);
    assert(seq![a] + Seq::<Seq<char>>::empty() =~= seq![a]);
    let q = a + seq![','] + b;
    assert forall|j: int| 0 <= j < a.len() implies #[trigger] q[j] != ',' by {
        assert(q[j] == a[j]);
    }
    assert(q[a.len() as int] == ',');
    lemma_place(q, ',', 0, a.len() as int);
    lemma_pieces_shift(a + seq![','], b, 0);
    assert(q.subrange(0, a.len() as int) =~= a);
    assert(Seq::<Seq<char>>::empty() + pieces(b, 0) =~= pieces(b, 0));
}

proof fn lemma_terms_shift(names: Seq<Seq<char>>, p: Seq<char>, q: Seq<char>, i: int)
    requires
        0 <= i <= q.len(),
    ensures
        terms_meant(names, p + q, p.len() + i) == terms_meant(names, q, i),
    decreases q.len() - i,
{
    lemma_place_shift(p, q, ',', i);
    lemma_place_bounds(q, ',', i);
    let j = place_of(q, ',', i);
    if j < q.len() {
        lemma_terms_shift(names, p, q, j + 1);
    }
    assert((p + q).subrange(p.len() + i, p.len() + j) =~= q.subrange(i, j));
}

/// **A search is its terms, between commas, in order**: a text without commas is one term, which
/// may be blank; the first that is wrong decides.
pub proof fn law_terms(names: Seq<Seq<char>>, a: Seq<char>, b: Seq<char>)
    requires
        !a.contains(','),
    ensures
        ({
            let one = match term_meant(names, a) {
                Err(e) => Err::<Seq<Wanted>, Seq<char>>(e),
                Ok(None) => Ok(seq![]),
                Ok(Some(w)) => Ok(seq![w]),
            };
            let more = terms_meant(names, b, 0);
            &&& terms_meant(names, a, 0) == one
            &&& terms_meant(names, a + seq![','] + b, 0) == (if one is Err {
                one
            } else if more is Err {
                more
            } else {
                Ok(one->Ok_0 + more->Ok_0)
            })
        }),
{
    assert forall|j: int| 0 <= j < a.len() implies #[trigger] a[j] != ',' by {
        assert(a.contains(a[j]));
    }
    lemma_place(a, ',', 0, a.len() as int);
    assert(a.subrange(0, a.len() as int) =~= a);
    let q = a + seq![','] + b;
    assert forall|j: int| 0 <= j < a.len() implies #[trigger] q[j] != ',' by {
        assert(q[j] == a[j]);
    }
    assert(q[a.len() as int] == ',');
    lemma_place(q, ',', 0, a.len() as int);
    lemma_terms_shift(names, a + seq![','], b, 0);
    assert(q.subrange(0, a.len() as int) =~= a);
    match term_meant(names, a) {
        Ok(Some(w)) => {
            assert(seq![w] + Seq::<Wanted>::empty() =~= seq![w]);
        },
        Ok(None) => {
            match terms_meant(names, b, 0) {
                Ok(m) => {
                    assert(Seq::<Wanted>::empty() + m =~= m);
                },
                Err(_) => {},
            }
        },
        Err(_) => {},
    }
}

proof fn lemma_white(q: Seq<char>, i: int, n: int)
    requires
        0 <= i <= q.len(),
        0 <= n <= q.len(),
    ensures
        i <= white_from(q, i) <= q.len(),
        forall|j: int| i <= j < white_from(q, i) ==> is_white(#[trigger] q[j]),
        white_from(q, i) < q.len() ==> !is_white(q[white_from(q, i)]),
        0 <= white_to(q, n) <= n,
        forall|j: int| white_to(q, n) <= j < n ==> is_white(#[trigger] q[j]),
        white_to(q, n) > 0 ==> !is_white(q[white_to(q, n) - 1]),
    decreases q.len() - i + n,
{
    if i < q.len() && is_white(q[i]) {
        lemma_white(q, i + 1, n);
    }
    if n > 0 && is_white(q[n - 1]) {
        lemma_white(q, i, n - 1);
    }
}

/// **Trimming takes off white space at both ends, and nothing else.**
pub proof fn law_trimmed(q: Seq<char>) -> (ab: (Seq<char>, Seq<char>))
    ensures
        q == ab.0 + trimmed(q) + ab.1,
        forall|i: int| 0 <= i < ab.0.len() ==> is_white(#[trigger] ab.0[i]),
        forall|i: int| 0 <= i < ab.1.len() ==> is_white(#[trigger] ab.1[i]),
        trimmed(q).len() > 0 ==> !is_white(trimmed(q)[0]) && !is_white(trimmed(q).last()),
{
    lemma_white(q, 0, q.len() as int);
    let (i, n) = (white_from(q, 0), white_to(q, q.len() as int));
    if i >= n {
        assert forall|k: int| 0 <= k < q.len() implies is_white(#[trigger] q[k]) by {}
        assert(q =~= q + trimmed(q) + Seq::<char>::empty());
        (q, Seq::<char>::empty())
    } else {
        assert(q =~= q.take(i) + trimmed(q) + q.skip(n));
        (q.take(i), q.skip(n))
    }
}

proof fn lemma_not_blank(q: Seq<char>, k: int)
    requires
        0 <= k < q.len(),
        !is_white(q[k]),
    ensures
        trimmed(q).len() > 0,
{
    lemma_white(q, 0, q.len() as int);
}

proof fn lemma_listed_at(names: Seq<Seq<char>>, name: Seq<char>, i: int)
    requires
        0 <= i <= names.len(),
    ensures
        i <= listed_at(names, name, i) <= names.len(),
        listed_at(names, name, i) < names.len() ==> names[listed_at(names, name, i)] == name,
        forall|j: int| i <= j < listed_at(names, name, i) ==> #[trigger] names[j] != name,
    decreases names.len() - i,
{
    if i < names.len() && names[i] != name {
        lemma_listed_at(names, name, i + 1);
    }
}

/// **A search term is a field, a sign, and what to look for**: `~` asks whether the field holds it
/// somewhere, `=` whether it is all of it; it is looked for in lower case. A term is refused whose
/// field is not searchable, that has nothing to look for, or that has no sign; a blank one asks
/// for nothing.
pub proof fn law_term(names: Seq<Seq<char>>, f: Seq<char>, c: char, v: Seq<char>, at: int)
    requires
        c == '~' || c == '=',
        !f.contains('~'),
        c == '=' ==> !f.contains('=') && !v.contains('~'),
        0 <= at <= names.len(),
        at < names.len() ==> names[at] == trimmed(f),
        forall|j: int| 0 <= j < at ==> #[trigger] names[j] != trimmed(f),
    ensures
        ({
            let r = term_meant(names, f + seq![c] + v);
            if at < names.len() && v.len() > 0 {
                r == Ok::<Option<Wanted>, Seq<char>>(
                    Some(Wanted { field: at, contains: c == '~', needle: lowercased(v) }),
                )
            } else {
                r is Err
            }
        }),
{
    let t = f + seq![c] + v;
    let n = f.len() as int;
    assert(t[n] == c);
    assert(!is_white('~') && !is_white('='));
    lemma_not_blank(t, n);
    assert forall|j: int| 0 <= j < n implies t[j] == #[trigger] f[j] && f[j] != '~' by {
        assert(f.contains(f[j]));
    }
    if c == '~' {
        assert forall|j: int| 0 <= j < n implies #[trigger] t[j] != '~' by {
            assert(t[j] == f[j]);
        }
        lemma_place(t, '~', 0, n);
    } else {
        assert forall|j: int| 0 <= j < t.len() implies #[trigger] t[j] != '~' by {
            if j < n {
                assert(t[j] == f[j]);
            } else if j > n {
                assert(t[j] == v[j - n - 1]);
                assert(v.contains(v[j - n - 1]));
            }
        }
        lemma_place(t, '~', 0, t.len() as int);
        assert forall|j: int| 0 <= j < n implies #[trigger] t[j] != '=' by {
            assert(t[j] == f[j]);
            assert(f.contains(f[j]));
        }
        lemma_place(t, '=', 0, n);
    }
    assert(t.take(n) =~= f);
    assert(t.skip(n + 1) =~= v);
    lemma_listed_at(names, trimmed(f), 0);
    let k = listed_at(names, trimmed(f), 0);
    assert(k == at) by {
        if k < at {
            assert(names[k] != trimmed(f));
        } else if at < k {
            assert(names[at] != trimmed(f));
        }
    }
}

/// **A term without a sign** is refused, unless it is blank.
pub proof fn law_term_without_sign(names: Seq<Seq<char>>, t: Seq<char>)
    requires
        !t.contains('~'),
        !t.contains('='),
    ensures
        (exists|k: int| 0 <= k < t.len() && !is_white(#[trigger] t[k])) ==> term_meant(names, t) is Err,
        (forall|k: int| 0 <= k < t.len() ==> is_white(#[trigger] t[k])) ==> term_meant(names, t)
            == Ok::<Option<Wanted>, Seq<char>>(None),
{
    assert forall|j: int| 0 <= j < t.len() implies #[trigger] t[j] != '~' && t[j] != '=' by {
        assert(t.contains(t[j]));
    }
    lemma_place(t, '~', 0, t.len() as int);
    lemma_place(t, '=', 0, t.len() as int);
    if exists|k: int| 0 <= k < t.len() && !is_white(#[trigger] t[k]) {
        let k = choose|k: int| 0 <= k < t.len() && !is_white(#[trigger] t[k]);
        lemma_not_blank(t, k);
    } else {
        let (a, b) = law_trimmed(t);
        if trimmed(t).len() > 0 {
            assert(t[a.len() as int] == trimmed(t)[0]);
        }
    }
}

/// **A tile has an address**: a zoom from 0 to 20, and a column and a row among the tiles of that
/// zoom, of which each zoom has twice as many as the one before.
pub proof fn law_tile_row(z: int, x: int, y: Seq<char>, n: int)
    ensures
        row_meant(z, x, y) == Ok::<int, Seq<char>>(n) <==> signed(y) == Some(n) && 0 <= z <= 20 && 0
            <= x < vstd::arithmetic::power2::pow2(z as nat) && 0 <= n
            < vstd::arithmetic::power2::pow2(z as nat),
{
    if 0 <= z <= 20 {
        vstd::arithmetic::power2::lemma_pow2_strictly_increases(z as nat, 21);
        assert(vstd::arithmetic::power2::pow2(21) == 2097152) by {
            vstd::arithmetic::power2::lemma2_to64();
        }
    }
}

/// **The last dot parts a row from its format.**
pub proof fn law_last_dot(y: Seq<char>, ext: Seq<char>)
    requires
        !ext.contains('.'),
    ensures
        last_dot(y + seq!['.'] + ext, (y + seq!['.'] + ext).len() as int) == y.len(),
        last_dot(ext, ext.len() as int) == -1,
{
    let q = y + seq!['.'] + ext;
    assert forall|j: int| 0 <= j < ext.len() implies #[trigger] ext[j] != '.' by {
        assert(ext.contains(ext[j]));
    }
    lemma_last_dot(q, q.len() as int, y.len() as int);
    lemma_no_dot(ext, ext.len() as int);
}

proof fn lemma_last_dot(q: Seq<char>, n: int, k: int)
    requires
        0 <= k < n <= q.len(),
        q[k] == '.',
        forall|j: int| k < j < q.len() ==> #[trigger] q[j] != '.',
    ensures
        last_dot(q, n) == k,
    decreases n,
{
    if n - 1 > k {
        assert(q[n - 1] != '.');
        lemma_last_dot(q, n - 1, k);
    }
}

proof fn lemma_no_dot(q: Seq<char>, n: int)
    requires
        0 <= n <= q.len(),
        forall|j: int| 0 <= j < q.len() ==> #[trigger] q[j] != '.',
    ensures
        last_dot(q, n) == -1,
    decreases n,
{
    if n > 0 {
        assert(q[n - 1] != '.');
        lemma_no_dot(q, n - 1);
    }
}

/// **Tiles come in two formats, each by two names**, and are refused by any other.
pub proof fn law_tile_format(ext: Seq<char>)
    ensures
        (format_meant(ext) matches Ok(f) && f is Mvt) <==> ext == "mvt"@ || ext == "pbf"@,
        (format_meant(ext) matches Ok(f) && f is Json) <==> ext == "json"@ || ext == "geojson"@,
{
    reveal_strlit("mvt");
    reveal_strlit("pbf");
    reveal_strlit("json");
    reveal_strlit("geojson");
    assert("mvt"@[0] == 'm' && "pbf"@[0] == 'p' && "json"@[0] == 'j' && "geojson"@[0] == 'g');
}

/// **A tile is never narrowed in silence**: a request for one that searches or names ids is
/// refused, and no other.
pub proof fn law_tile_request(q: Seq<(String, String)>)
    ensures
        tile_refusal(q) is Some <==> exists|i: int|
            0 <= i < q.len() && ((#[trigger] q[i]).0@ == "where"@ || q[i].0@ == "ids"@),
{
    lemma_some_param(q, "where"@);
    lemma_some_param(q, "ids"@);
}

proof fn lemma_some_param(q: Seq<(String, String)>, name: Seq<char>)
    ensures
        param(q, name) is Some <==> exists|i: int| 0 <= i < q.len() && (#[trigger] q[i]).0@ == name,
{
    lemma_some_from(q, name, 0);
}

proof fn lemma_some_from(q: Seq<(String, String)>, name: Seq<char>, k: int)
    requires
        0 <= k <= q.len(),
    ensures
        param_from(q, name, k) is Some <==> exists|i: int|
            k <= i < q.len() && (#[trigger] q[i]).0@ == name,
    decreases q.len() - k,
{
    if k < q.len() {
        lemma_some_from(q, name, k + 1);
        if q[k].0@ == name {
            assert(k <= k < q.len() && q[k].0@ == name);
        } else if exists|i: int| k <= i < q.len() && (#[trigger] q[i]).0@ == name {
            let i = choose|i: int| k <= i < q.len() && (#[trigger] q[i]).0@ == name;
            assert(k + 1 <= i < q.len() && q[i].0@ == name);
        }
    }
}

/// **A list of ids**: no list where none is given, the names between the commas where there are up
/// to a thousand of them, and a refusal where there are more.
pub proof fn law_ids(q: Seq<(String, String)>, r: Result<Option<Vec<String>>, ApiError>)
    requires
        ids_meant(q, r),
    ensures
        param(q, "ids"@) is None <==> r == Ok::<Option<Vec<String>>, ApiError>(None),
        param(q, "ids"@) matches Some(raw) ==> (r is Err <==> pieces(raw, 0).len() > 1000),
        r matches Ok(Some(v)) ==> v.len() <= 1000 && texts(v@) == pieces(param(q, "ids"@)->0, 0),
        r matches Err(e) ==> e.status == 413 && e.code@ == "too_many_ids"@,
{
    match r {
        Ok(Some(v)) => {
            assert(texts(v@).len() == v.len());
        },
        _ => {},
    }
}

/// **What a query selects**: everything without a filter or a category; with filters the cell of
/// their values, or none where no device can have them; not both.
pub proof fn law_selection_params(
    c: Collection,
    q: Seq<(String, String)>,
    r: Result<i32, ApiError>,
)
    requires
        filter_meant(c, q, r),
    ensures
        ({
            let f = filters_of(q, q.len() as int);
            let cat = param(q, "cat"@) is Some && param(q, "cat"@)->0.len() > 0;
            &&& f.len() == 0 && !cat ==> r == Ok::<i32, ApiError>(-1i32)
            &&& f.len() > 0 && cat ==> (r matches Err(e) && e.status == 400 && e.code@
                == "bad_filter"@)
            &&& f.len() > 0 && !cat ==> exists|sel: Seq<(String, String)>|
                {
                    &&& sel.len() == f.len()
                    &&& forall|i: int|
                        0 <= i < f.len() ==> f[i] == ((#[trigger] sel[i]).0@, sel[i].1@)
                    &&& match #[trigger] c.schema.queried(c.interner@, false, sel).0 {
                        Ok(Some(cell)) => r == Ok::<i32, ApiError>(cell),
                        Ok(None) => r == Ok::<i32, ApiError>(-2i32),
                        Err(t) => r matches Err(e) && e.status == 400 && e.message@ == t,
                    }
                }
        }),
{
    let f = filters_of(q, q.len() as int);
    if f.len() > 0 && given(q, "cat"@).len() == 0 {
        let sel = choose|sel: Seq<(String, String)>|
            pairs(sel) == f && answered(r, #[trigger] filtered(c, sel));
        assert forall|i: int| 0 <= i < f.len() implies f[i] == ((#[trigger] sel[i]).0@, sel[i].1@) by {
            assert(pairs(sel)[i] == (sel[i].0@, sel[i].1@));
        }
        let a = c.schema.queried(c.interner@, false, sel).0;
        assert(pairs(sel).len() == sel.len());
    }
}

} // verus!
