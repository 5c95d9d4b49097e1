//! What a query string asks for.
use crate::api::{refused, ApiError, Refusal};
use crate::collection::lookup::{category_of, says, selects};
use crate::collection::query::{Page, TextPred};
use crate::collection::{Collection, NO_MATCH};
use crate::encoding::sel_names;
use crate::text::{find_from, integer, lemma_parsed, lemma_place_of, list, listing, lowercase, lowercased, number,
    parse_integer, parse_number, parsed, part, place_of, push_integer, push_number, quote, quoted, signed, texts,
    trim, trimmed};
use vstd::prelude::*;
use vstd::string::StringExecFns;

verus! {

/// The most ids a whitelist may name.
pub const MAX_IDS: usize = 1000;

/// The largest page of a listing.
pub const MAX_PAGE: usize = 10000;

/// What a query string gives under a name, from its `i`-th pair on.
pub open spec fn param_from(q: Seq<(String, String)>, name: Seq<char>, i: int) -> Option<Seq<char>>
    decreases q.len() - i,
{
    if i >= q.len() {
        None
    } else if q[i].0@ == name {
        Some(q[i].1@)
    } else {
        param_from(q, name, i + 1)
    }
}

pub open spec fn param(q: Seq<(String, String)>, name: Seq<char>) -> Option<Seq<char>> {
    param_from(q, name, 0)
}

/// The same, empty if it gives nothing.
pub open spec fn given(q: Seq<(String, String)>, name: Seq<char>) -> Seq<char> {
    match param(q, name) {
        Some(t) => t,
        None => seq![],
    }
}

/// Look up a parameter.
pub fn lookup<'a>(q: &'a Vec<(String, String)>, name: &str) -> (r: Option<&'a str>)
    ensures
        match r {
            Some(v) => param(q@, name@) == Some(v@),
            None => param(q@, name@) is None,
        },
{
    let mut i: usize = 0;
    while i < q.len()
        invariant
            i <= q.len(),
            param(q@, name@) == param_from(q@, name@, i as int),
        decreases q.len() - i,
    {
        if *q[i].0.as_str() == *name {
            return Some(q[i].1.as_str());
        }
        i = i + 1;
    }
    None
}

/// The pair is a filter: its name begins with `f.` and its value is not empty.
pub open spec fn is_filter(p: (String, String)) -> bool {
    p.0@.len() >= 2 && p.0@[0] == 'f' && p.0@[1] == '.' && p.1@.len() > 0
}

/// The filters among the first `k` pairs: names, without the prefix, and values.
pub open spec fn filters_of(q: Seq<(String, String)>, k: int) -> Seq<(Seq<char>, Seq<char>)>
    decreases k,
{
    if k <= 0 {
        seq![]
    } else if is_filter(q[k - 1]) {
        filters_of(q, k - 1).push((q[k - 1].0@.skip(2), q[k - 1].1@))
    } else {
        filters_of(q, k - 1)
    }
}

/// Names and values.
pub open spec fn pairs(v: Seq<(String, String)>) -> Seq<(Seq<char>, Seq<char>)> {
    Seq::new(v.len(), |i: int| (v[i].0@, v[i].1@))
}

/// The same answer, or the same refusal.
pub open spec fn answered(r: Result<i32, ApiError>, a: Result<i32, Refusal>) -> bool {
    match (r, a) {
        (Ok(x), Ok(y)) => x == y,
        (Err(e), Err(f)) => e.refusal() == f,
        _ => false,
    }
}

/// What a selection of filters comes to.
pub open spec fn filtered(c: Collection, sel: Seq<(String, String)>) -> Result<i32, Refusal> {
    match c.schema.queried(c.interner@, false, sel).0 {
        Ok(Some(cell)) => Ok(cell),
        Ok(None) => Ok(NO_MATCH),
        Err(e) => Err(refused(e, "bad_filter"@)),
    }
}

/// What a category selector comes to.
pub open spec fn categorised(c: Collection, sel: Seq<char>, one: Seq<(String, String)>) -> Result<
    i32,
    Refusal,
> {
    match category_of(c, sel, one) {
        Ok(cell) => Ok(cell),
        Err(e) => Err(refused(e, "bad_filter"@)),
    }
}

/// Which cell a query string selects.
pub open spec fn filter_meant(
    c: Collection,
    q: Seq<(String, String)>,
    r: Result<i32, ApiError>,
) -> bool {
    let f = filters_of(q, q.len() as int);
    let cat = given(q, "cat"@);
    if f.len() > 0 {
        if cat.len() > 0 {
            answered(
                r,
                Err(refused("pass either ?cat= or ?f.<name>=, not both"@, "bad_filter"@)),
            )
        } else {
            exists|sel: Seq<(String, String)>|
                pairs(sel) == f && answered(r, #[trigger] filtered(c, sel))
        }
    } else if cat.len() == 0 {
        r == Ok::<i32, ApiError>(-1 as i32)
    } else {
        exists|one: Seq<(String, String)>|
            (c.schema.dims.len() > 0 ==> selects(one, c.schema.dims[0].name@, cat)) && answered(
                r,
                #[trigger] categorised(c, cat, one),
            )
    }
}

/// The names of a query string.
pub open spec fn names_differ(q: Seq<(String, String)>) -> bool {
    forall|i: int, j: int|
        0 <= i < j < q.len() ==> (#[trigger] q[i]).0@ != (#[trigger] q[j]).0@
}

/// A filter is one of the first `k` pairs.
spec fn comes_from(q: Seq<(String, String)>, k: int, f: (Seq<char>, Seq<char>)) -> bool {
    exists|j: int| 0 <= j < k && is_filter(#[trigger] q[j]) && q[j].0@.skip(2) == f.0
}

/// Filters of different names have different names.
proof fn lemma_filters(q: Seq<(String, String)>, k: int)
    requires
        0 <= k <= q.len(),
        names_differ(q),
    ensures
        forall|i: int|
            0 <= i < filters_of(q, k).len() ==> comes_from(q, k, #[trigger] filters_of(q, k)[i]),
        forall|i: int, j: int|
            0 <= i < j < filters_of(q, k).len() ==> (#[trigger] filters_of(q, k)[i]).0 != (
            #[trigger] filters_of(q, k)[j]).0,
    decreases k,
{
    if k > 0 {
        lemma_filters(q, k - 1);
        let p = filters_of(q, k - 1);
        let f = filters_of(q, k);
        assert forall|i: int| 0 <= i < f.len() implies comes_from(q, k, #[trigger] f[i]) by {
            if i < p.len() {
                assert(f[i] == p[i]);
                assert(comes_from(q, k - 1, p[i]));
                let j = choose|j: int|
                    0 <= j < k - 1 && is_filter(#[trigger] q[j]) && q[j].0@.skip(2) == p[i].0;
                assert(is_filter(q[j]) && q[j].0@.skip(2) == f[i].0);
            } else {
                assert(is_filter(q[k - 1]) && q[k - 1].0@.skip(2) == f[i].0);
            }
        }
        assert forall|i: int, j: int| 0 <= i < j < f.len() implies (#[trigger] f[i]).0 != (
        #[trigger] f[j]).0 by {
            if j < p.len() {
                assert(f[i] == p[i] && f[j] == p[j]);
            } else {
                assert(f[i] == p[i]);
                assert(comes_from(q, k - 1, p[i]));
                let m = choose|m: int|
                    0 <= m < k - 1 && is_filter(#[trigger] q[m]) && q[m].0@.skip(2) == p[i].0;
                if f[i].0 == f[j].0 {
                    let (a, b) = (q[m].0@, q[k - 1].0@);
                    assert(a =~= seq!['f', '.'] + a.skip(2));
                    assert(b =~= seq!['f', '.'] + b.skip(2));
                    assert(q[m].0@ == q[k - 1].0@);
                }
            }
        }
    }
}

/// Which cell a query selects.
///
/// `?f.client=7&f.status=enroute` names one declared filter shape. The `f.` prefix keeps filter
/// names out of the same namespace as `bbox`, `zoom` and `cat`, so a dimension called `zoom` is
/// not a problem and no grammar is needed.
///
/// `?cat=` remains the spelling for a collection declared with `categories`. Naming a dimension
/// or a value this collection does not have is refused rather than answered with nothing: a
/// filter that silently matches nothing looks exactly like a fleet that has gone quiet.
pub fn parse_filter(c: &Collection, q: &Vec<(String, String)>) -> (r: Result<i32, ApiError>)
    requires
        c.sound(),
        names_differ(q@),
    ensures
        filter_meant(*c, q@, r),
{
    let mut sel: Vec<(String, String)> = Vec::new();
    let mut i: usize = 0;
    while i < q.len()
        invariant
            i <= q.len(),
            pairs(sel@) == filters_of(q@, i as int),
        decreases q.len() - i,
    {
        let k = q[i].0.as_str();
        let v = q[i].1.as_str();
        let n = k.unicode_len();
        let ghost was = sel@;
        if n >= 2 && k.get_char(0) == 'f' && k.get_char(1) == '.' && !v.is_empty() {
            let name = part(k, 2, n);
            proof {
                assert(name@ =~= k@.skip(2));
            }
            sel.push((name, String::from_str(v)));
            proof {
                assert(pairs(sel@) =~= pairs(was).push((k@.skip(2), v@)));
            }
        }
        i = i + 1;
    }
    let ghost f = filters_of(q@, q@.len() as int);
    let cat: Option<&str> = lookup(q, "cat");
    if sel.len() > 0 {
        if let Some(t) = cat {
            if !t.is_empty() {
                return Err(
                    ApiError::bad(
                        String::from_str("pass either ?cat= or ?f.<name>=, not both"),
                    ).code("bad_filter"),
                );
            }
        }
        proof {
            lemma_filters(q@, q@.len() as int);
            let names = sel_names(sel@);
            assert forall|i: int, j: int|
                0 <= i < names.len() && 0 <= j < names.len() && i != j implies names[i]
                != names[j] by {
                assert(pairs(sel@)[i] == f[i] && pairs(sel@)[j] == f[j]);
                if i < j {
                    assert(f[i].0 != f[j].0);
                } else {
                    assert(f[j].0 != f[i].0);
                }
            }
        }
        let r = match c.filter_cell(&sel) {
            Ok(Some(cell)) => Ok(cell),
            Ok(None) => Ok(NO_MATCH),
            Err(e) => Err(ApiError::bad(e).code("bad_filter")),
        };
        proof {
            assert(pairs(sel@) == f && answered(r, filtered(*c, sel@)));
        }
        return r;
    }
    let found = c.category(cat);
    let ghost was = found;
    let r = match found {
        Ok(cell) => Ok(cell),
        Err(e) => Err(ApiError::bad(e).code("bad_filter")),
    };
    proof {
        if let Some(t) = cat {
            if t@.len() > 0 {
                let one = choose|one: Seq<(String, String)>|
                    (c.schema.dims.len() > 0 ==> selects(one, c.schema.dims[0].name@, t@)) && says(
                        was,
                        #[trigger] category_of(*c, t@, one),
                    );
                assert(given(q@, "cat"@) == t@);
                assert(answered(r, categorised(*c, given(q@, "cat"@), one)));
            }
        }
    }
    r
}

/// What a [`TextPred`] asks for.
pub struct Wanted {
    pub field: int,
    pub contains: bool,
    pub needle: Seq<char>,
}

impl TextPred {
    pub open spec fn wanted(&self) -> Wanted {
        Wanted { field: self.field as int, contains: self.contains, needle: self.needle@ }
    }
}

pub open spec fn wanted_all(v: Seq<TextPred>) -> Seq<Wanted> {
    Seq::new(v.len(), |i: int| v[i].wanted())
}

/// Where a name stands in a list, from `i` on.
pub open spec fn listed_at(names: Seq<Seq<char>>, name: Seq<char>, i: int) -> int
    decreases names.len() - i,
{
    if i >= names.len() || names[i] == name {
        i
    } else {
        listed_at(names, name, i + 1)
    }
}

/// What a term of a search means: nothing if it is blank.
pub open spec fn term_meant(names: Seq<Seq<char>>, term: Seq<char>) -> Result<
    Option<Wanted>,
    Seq<char>,
> {
    let tilde = place_of(term, '~', 0);
    let equal = place_of(term, '=', 0);
    let contains = tilde < term.len();
    let cut = if contains {
        tilde
    } else {
        equal
    };
    let field = trimmed(term.take(cut));
    let at = listed_at(names, field, 0);
    if trimmed(term).len() == 0 {
        Ok(None)
    } else if cut >= term.len() {
        Err("where term "@ + quoted(term) + " needs `field~substring` or `field=value`"@)
    } else if at >= names.len() {
        Err(
            quoted(field) + " is not searchable; this collection declares "@ + listing(names)
                + ". Searchable fields are extracted from props at ingest, so adding one means recreating the collection."@,
        )
    } else if cut + 1 >= term.len() {
        Err("where term "@ + quoted(term) + " has nothing to match"@)
    } else {
        Ok(Some(Wanted { field: at, contains, needle: lowercased(term.skip(cut + 1)) }))
    }
}

/// What the terms of a search mean, from the `i`-th character on; the first that means nothing
/// decides.
pub open spec fn terms_meant(names: Seq<Seq<char>>, raw: Seq<char>, i: int) -> Result<
    Seq<Wanted>,
    Seq<char>,
>
    decreases raw.len() - i,
    when 0 <= i <= raw.len()
    via terms_meant_decreases
{
    let j = place_of(raw, ',', i);
    match term_meant(names, raw.subrange(i, j)) {
        Err(e) => Err(e),
        Ok(w) => {
            let rest = if j >= raw.len() {
                Ok(seq![])
            } else {
                terms_meant(names, raw, j + 1)
            };
            match rest {
                Err(e) => Err(e),
                Ok(q) => Ok(
                    match w {
                        Some(x) => seq![x] + q,
                        None => q,
                    },
                ),
            }
        },
    }
}

#[via_fn]
proof fn terms_meant_decreases(names: Seq<Seq<char>>, raw: Seq<char>, i: int) {
    lemma_place_of(raw, ',', i);
}

/// What a search means.
pub open spec fn search_meant(c: Collection, q: Seq<(String, String)>) -> Result<
    Seq<Wanted>,
    Refusal,
> {
    match param(q, "where"@) {
        None => Ok(seq![]),
        Some(raw) => match terms_meant(texts(c.config.text@), raw, 0) {
            Ok(w) => Ok(w),
            Err(e) => Err(refused(e, "bad_where"@)),
        },
    }
}

fn parse_term(names: &Vec<String>, term: &str) -> (r: Result<Option<TextPred>, String>)
    ensures
        match r {
            Err(e) => term_meant(texts(names@), term@) == Err::<Option<Wanted>, Seq<char>>(e@),
            Ok(None) => term_meant(texts(names@), term@) == Ok::<Option<Wanted>, Seq<char>>(None),
            Ok(Some(p)) => term_meant(texts(names@), term@) == Ok::<Option<Wanted>, Seq<char>>(
                Some(p.wanted()),
            ) && p.field < names.len(),
        },
{
    let ghost ns = texts(names@);
    if trim(term).as_str().is_empty() {
        return Ok(None);
    }
    let len = term.unicode_len();
    let tilde = find_from(term, '~', 0);
    let contains = tilde < len;
    let cut = if contains {
        tilde
    } else {
        find_from(term, '=', 0)
    };
    if cut >= len {
        let mut e = String::from_str("where term ");
        e.append(quote(term).as_str());
        e.append(" needs `field~substring` or `field=value`");
        return Err(e);
    }
    let field = trim(part(term, 0, cut).as_str());
    proof {
        assert(term@.subrange(0, cut as int) =~= term@.take(cut as int));
    }
    let mut at: usize = 0;
    while at < names.len() && *names[at].as_str() != *field.as_str()
        invariant
            at <= names.len(),
            ns == texts(names@),
            listed_at(ns, field@, 0) == listed_at(ns, field@, at as int),
        decreases names.len() - at,
    {
        proof {
            assert(ns[at as int] == names@[at as int]@);
        }
        at = at + 1;
    }
    proof {
        if at < names.len() {
            assert(ns[at as int] == names@[at as int]@);
        }
    }
    if at >= names.len() {
        let mut e = quote(field.as_str());
        e.append(" is not searchable; this collection declares ");
        e.append(list(names).as_str());
        e.append(
            ". Searchable fields are extracted from props at ingest, so adding one means recreating the collection.",
        );
        return Err(e);
    }
    if cut + 1 >= len {
        let mut e = String::from_str("where term ");
        e.append(quote(term).as_str());
        e.append(" has nothing to match");
        return Err(e);
    }
    let value = part(term, cut + 1, len);
    proof {
        assert(value@ =~= term@.skip(cut + 1));
    }
    Ok(Some(TextPred { field: at, contains, needle: lowercase(value.as_str()) }))
}

/// `?where=plate~abc` terms.
///
/// `~` is a substring match and `=` is the whole value; both ignore case, because the searchable
/// fields are lowercased once at ingest rather than per query. Terms are separated by commas, and
/// all have to match.
///
/// Only declared fields are searchable. Anything else is refused, naming what is declared: the
/// alternative is scanning for a field no device has, which always returns nothing and always
/// looks like a quiet fleet.
pub fn parse_where(c: &Collection, q: &Vec<(String, String)>) -> (r: Result<
    Vec<TextPred>,
    ApiError,
>)
    ensures
        match r {
            Ok(v) => search_meant(*c, q@) == Ok::<Seq<Wanted>, Refusal>(wanted_all(v@))
                && c.searchable(v@),
            Err(e) => search_meant(*c, q@) == Err::<Seq<Wanted>, Refusal>(e.refusal()),
        },
{
    let mut out: Vec<TextPred> = Vec::new();
    let raw = match lookup(q, "where") {
        Some(raw) => raw,
        None => {
            proof {
                assert(wanted_all(out@) =~= seq![]);
            }
            return Ok(out);
        },
    };
    let ghost names = texts(c.config.text@);
    let ghost all = terms_meant(names, raw@, 0);
    let len = raw.unicode_len();
    let mut i: usize = 0;
    proof {
        assert(wanted_all(out@) =~= seq![]);
        assert(all matches Ok(s) ==> wanted_all(out@) + s =~= s);
    }
    loop
        invariant
            len == raw@.len(),
            i <= len,
            names == texts(c.config.text@),
            all == terms_meant(names, raw@, 0),
            search_meant(*c, q@) == (match all {
                Ok(w) => Ok::<Seq<Wanted>, Refusal>(w),
                Err(e) => Err(refused(e, "bad_where"@)),
            }),
            c.searchable(out@),
            all == (match terms_meant(names, raw@, i as int) {
                Ok(s) => Ok::<Seq<Wanted>, Seq<char>>(wanted_all(out@) + s),
                Err(e) => Err(e),
            }),
        decreases len - i,
    {
        let j = find_from(raw, ',', i);
        let term = part(raw, i, j);
        let ghost was = wanted_all(out@);
        let ghost rest: Result<Seq<Wanted>, Seq<char>> = if j >= len {
            Ok(seq![])
        } else {
            terms_meant(names, raw@, j + 1)
        };
        match parse_term(&c.config.text, term.as_str()) {
            Err(e) => {
                return Err(ApiError::bad(e).code("bad_where"));
            },
            Ok(None) => {},
            Ok(Some(p)) => {
                let ghost w = p.wanted();
                out.push(p);
                proof {
                    assert(wanted_all(out@) =~= was.push(w));
                    if let Ok(s) = rest {
                        assert(was + (seq![w] + s) =~= was.push(w) + s);
                    }
                }
            },
        }
        if j >= len {
            proof {
                assert(wanted_all(out@) + seq![] =~= wanted_all(out@));
            }
            return Ok(out);
        }
        i = j + 1;
    }
}

/// The pieces of a list, from the `i`-th character on; empty ones do not count.
pub open spec fn pieces(raw: Seq<char>, i: int) -> Seq<Seq<char>>
    decreases raw.len() - i,
    when 0 <= i <= raw.len()
    via pieces_decreases
{
    let j = place_of(raw, ',', i);
    let rest = if j >= raw.len() {
        seq![]
    } else {
        pieces(raw, j + 1)
    };
    if i < j {
        seq![raw.subrange(i, j)] + rest
    } else {
        rest
    }
}

#[via_fn]
proof fn pieces_decreases(raw: Seq<char>, i: int) {
    lemma_place_of(raw, ',', i);
}

/// Why a whitelist is refused: it is too long.
pub open spec fn too_many(n: int) -> Refusal {
    Refusal {
        status: 413,
        message: "?ids= names "@ + number(n) + " devices, over the "@ + number(MAX_IDS as int)
            + " allowed in one request"@,
        code: "too_many_ids"@,
    }
}

/// What a list of ids means: nothing if there is none, and a refusal if it is too long.
pub open spec fn ids_meant(
    q: Seq<(String, String)>,
    r: Result<Option<Vec<String>>, ApiError>,
) -> bool {
    match param(q, "ids"@) {
        None => r == Ok::<Option<Vec<String>>, ApiError>(None),
        Some(raw) => {
            let ids = pieces(raw, 0);
            match r {
                Ok(Some(v)) => ids.len() <= MAX_IDS && texts(v@) == ids,
                Ok(None) => false,
                Err(e) => ids.len() > MAX_IDS && e.refusal() == too_many(ids.len() as int),
            }
        },
    }
}

/// An explicit list of devices: `?ids=v1,v42`.
///
/// `?ids=` names none, which means nothing rather than everything: the caller's external set is
/// legitimately empty sometimes, and a map of every vehicle is not that. Too long a list is
/// refused rather than silently cut off.
pub fn parse_ids(q: &Vec<(String, String)>) -> (r: Result<Option<Vec<String>>, ApiError>)
    ensures
        ids_meant(q@, r),
{
    let raw = match lookup(q, "ids") {
        Some(raw) => raw,
        None => {
            return Ok(None);
        },
    };
    let ghost all = pieces(raw@, 0);
    let len = raw.unicode_len();
    let mut out: Vec<String> = Vec::new();
    let mut i: usize = 0;
    proof {
        assert(texts(out@) + all =~= all);
    }
    loop
        invariant_except_break
            i <= len,
            texts(out@) + pieces(raw@, i as int) == all,
        invariant
            len == raw@.len(),
        ensures
            texts(out@) == all,
        decreases len - i,
    {
        let j = find_from(raw, ',', i);
        let ghost was = texts(out@);
        let ghost rest: Seq<Seq<char>> = if j >= len {
            seq![]
        } else {
            pieces(raw@, j + 1)
        };
        if i < j {
            let one = part(raw, i, j);
            let ghost w = one@;
            out.push(one);
            proof {
                assert(texts(out@) =~= was.push(w));
                assert(was + (seq![w] + rest) =~= was.push(w) + rest);
            }
        }
        if j >= len {
            proof {
                assert(texts(out@) + rest =~= texts(out@));
            }
            break ;
        }
        i = j + 1;
    }
    if out.len() > MAX_IDS {
        let mut t = String::from_str("?ids= names ");
        push_number(&mut t, out.len() as u64);
        t.append(" devices, over the ");
        push_number(&mut t, MAX_IDS as u64);
        t.append(" allowed in one request");
        return Err(ApiError { status: 413, message: t, code: "too_many_ids" });
    }
    Ok(Some(out))
}

/// A count that a parameter gives; something else where it gives none.
pub open spec fn count_meant(v: Option<Seq<char>>, otherwise: usize) -> usize {
    match v {
        None => otherwise,
        Some(t) => match parsed(t) {
            None => otherwise,
            Some(n) => if n > usize::MAX {
                otherwise
            } else {
                n as usize
            },
        },
    }
}

fn parse_count(q: &Vec<(String, String)>, name: &str, otherwise: usize) -> (n: usize)
    ensures
        n == count_meant(param(q@, name@), otherwise),
{
    match lookup(q, name) {
        None => otherwise,
        Some(t) => {
            proof {
                lemma_parsed(t@);
            }
            match parse_number(t) {
                None => otherwise,
                Some(n) => {
                    if n > usize::MAX as u64 {
                        otherwise
                    } else {
                        n as usize
                    }
                },
            }
        },
    }
}

/// Which slice of a listing is asked for: `?limit=`, `?offset=` and `?props=false`.
pub fn parse_page(q: &Vec<(String, String)>) -> (r: Result<Page, ApiError>)
    ensures
        ({
            let limit = count_meant(param(q@, "limit"@), 1000);
            match r {
                Ok(p) => limit <= MAX_PAGE && p == (Page {
                    limit,
                    offset: count_meant(param(q@, "offset"@), 0),
                    with_props: param(q@, "props"@) != Some("false"@),
                }),
                Err(e) => limit > MAX_PAGE && e.refusal() == refused(
                    "limit "@ + number(limit as int) + " is over the "@ + number(MAX_PAGE as int)
                        + " a page may hold"@,
                    "limit_too_large"@,
                ),
            }
        }),
{
    let limit = parse_count(q, "limit", 1000);
    if limit > MAX_PAGE {
        let mut t = String::from_str("limit ");
        push_number(&mut t, limit as u64);
        t.append(" is over the ");
        push_number(&mut t, MAX_PAGE as u64);
        t.append(" a page may hold");
        return Err(ApiError::bad(t).code("limit_too_large"));
    }
    let with_props = match lookup(q, "props") {
        Some(t) => *t != *"false",
        None => true,
    };
    Ok(Page { limit, offset: parse_count(q, "offset", 0), with_props })
}

/// Which slice of the devices inside a cluster is asked for: 10 by default, and never more than
/// a page.
pub fn parse_leaves(q: &Vec<(String, String)>) -> (r: (usize, usize))
    ensures
        ({
            let limit = count_meant(param(q@, "limit"@), 10);
            &&& r.0 == (if limit > MAX_PAGE {
                MAX_PAGE
            } else {
                limit
            })
            &&& r.1 == count_meant(param(q@, "offset"@), 0)
        }),
{
    let limit = parse_count(q, "limit", 10);
    (
        if limit > MAX_PAGE {
            MAX_PAGE
        } else {
            limit
        },
        parse_count(q, "offset", 0),
    )
}

/// How a tile is wanted.
#[derive(Debug, Clone, Copy, PartialEq, Eq, Structural)]
pub enum TileFormat {
    Mvt,
    Json,
}

/// The last place of a dot, among the first `n` characters; -1 if there is none.
pub open spec fn last_dot(q: Seq<char>, n: int) -> int
    decreases n,
{
    if n <= 0 {
        -1
    } else if q[n - 1] == '.' {
        n - 1
    } else {
        last_dot(q, n - 1)
    }
}

/// What a tile address without its format means: the row, or the refusal.
pub open spec fn row_meant(z: int, x: int, y: Seq<char>) -> Result<int, Seq<char>> {
    match signed(y) {
        None => Err("tile y must be an integer"@),
        Some(n) => if n > i64::MAX || n < i64::MIN {
            Err("tile y must be an integer"@)
        } else if !(0 <= z <= 20) {
            Err("tile z must be between 0 and 20"@)
        } else {
            let side = vstd::arithmetic::power2::pow2(z as nat) as int;
            if x < 0 || x >= side || n < 0 || n >= side {
                Err(
                    "tile ("@ + integer(x) + ", "@ + integer(n) + ") is outside the 0.."@
                        + integer(side) + " range for zoom "@ + integer(z),
                )
            } else {
                Ok(n)
            }
        },
    }
}

/// The row and the format of a tile, from an address such as `5.mvt`. Without a format it is a
/// vector tile.
pub fn tile_address(z: i32, x: i64, y_ext: &str) -> (r: Result<(i64, String), ApiError>)
    ensures
        ({
            let dot = last_dot(y_ext@, y_ext@.len() as int);
            let y = if dot >= 0 {
                y_ext@.take(dot)
            } else {
                y_ext@
            };
            let ext = if dot >= 0 {
                y_ext@.skip(dot + 1)
            } else {
                "mvt"@
            };
            match r {
                Ok((n, e)) => row_meant(z as int, x as int, y) == Ok::<int, Seq<char>>(n as int)
                    && e@ == ext,
                Err(e) => exists|m: Seq<char>|
                    row_meant(z as int, x as int, y) == Err::<int, Seq<char>>(m)
                        && #[trigger] refused(m, "bad_request"@) == e.refusal(),
            }
        }),
{
    let len = y_ext.unicode_len();
    let mut n: usize = len;
    while n > 0 && y_ext.get_char(n - 1) != '.'
        invariant
            len == y_ext@.len(),
            n <= len,
            last_dot(y_ext@, len as int) == last_dot(y_ext@, n as int),
        decreases n,
    {
        n = n - 1;
    }
    let (y, ext): (String, String) = if n > 0 {
        let y = part(y_ext, 0, n - 1);
        let ext = part(y_ext, n, len);
        proof {
            assert(y@ =~= y_ext@.take(n - 1));
            assert(ext@ =~= y_ext@.skip(n as int));
        }
        (y, ext)
    } else {
        (String::from_str(y_ext), String::from_str("mvt"))
    };
    let row = match parse_integer(y.as_str()) {
        Some(row) => row,
        None => {
            let e = ApiError::bad(String::from_str("tile y must be an integer"));
            proof {
                assert(refused("tile y must be an integer"@, "bad_request"@) == e.refusal());
            }
            return Err(e);
        },
    };
    if z < 0 || z > 20 {
        let e = ApiError::bad(String::from_str("tile z must be between 0 and 20"));
        proof {
            assert(refused("tile z must be between 0 and 20"@, "bad_request"@) == e.refusal());
        }
        return Err(e);
    }
    let side: i64 = side_of(z);
    if x < 0 || x >= side || row < 0 || row >= side {
        let mut t = String::from_str("tile (");
        push_integer(&mut t, x);
        t.append(", ");
        push_integer(&mut t, row);
        t.append(") is outside the 0..");
        push_integer(&mut t, side);
        t.append(" range for zoom ");
        push_integer(&mut t, z as i64);
        let ghost m = t@;
        let e = ApiError::bad(t);
        proof {
            assert(refused(m, "bad_request"@) == e.refusal());
        }
        return Err(e);
    }
    Ok((row, ext))
}

/// How many tiles lie side by side at a zoom.
fn side_of(z: i32) -> (n: i64)
    requires
        0 <= z <= 20,
    ensures
        n == vstd::arithmetic::power2::pow2(z as nat),
        n >= 1,
{
    let mut n: i64 = 1;
    let mut i: i32 = 0;
    proof {
        vstd::arithmetic::power2::lemma2_to64();
    }
    while i < z
        invariant
            0 <= i <= z <= 20,
            n == vstd::arithmetic::power2::pow2(i as nat),
            1 <= n <= 0x10_0000,
            vstd::arithmetic::power2::pow2(20) == 0x10_0000,
        decreases z - i,
    {
        proof {
            vstd::arithmetic::power2::lemma_pow2_unfold((i + 1) as nat);
            if i + 1 < 20 {
                vstd::arithmetic::power2::lemma_pow2_strictly_increases((i + 1) as nat, 20);
            }
        }
        n = n * 2;
        i = i + 1;
    }
    n
}

/// What a tile cannot be asked for. Serving an unfiltered tile for a query that asked for a
/// search or for some devices would show every vehicle, so it is refused.
pub open spec fn tile_refusal(q: Seq<(String, String)>) -> Option<Refusal> {
    if param(q, "where"@) is Some {
        Some(
            refused(
                "?where= is not supported on tiles; use /clusters, which returns the              matching markers as GeoJSON"@,
                "where_not_supported"@,
            ),
        )
    } else if param(q, "ids"@) is Some {
        Some(
            refused(
                "?ids= is not supported on tiles; use /clusters, which returns the matching markers as GeoJSON"@,
                "ids_not_supported"@,
            ),
        )
    } else {
        None
    }
}

/// What a tile cannot be asked for.
pub fn tile_query(q: &Vec<(String, String)>) -> (r: Option<ApiError>)
    ensures
        match r {
            Some(e) => tile_refusal(q@) == Some(e.refusal()),
            None => tile_refusal(q@) is None,
        },
{
    if lookup(q, "where").is_some() {
        return Some(
            ApiError::bad(
                String::from_str(
                    "?where= is not supported on tiles; use /clusters, which returns the              matching markers as GeoJSON",
                ),
            ).code("where_not_supported"),
        );
    }
    if lookup(q, "ids").is_some() {
        return Some(
            ApiError::bad(
                String::from_str(
                    "?ids= is not supported on tiles; use /clusters, which returns the matching markers as GeoJSON",
                ),
            ).code("ids_not_supported"),
        );
    }
    None
}

/// What a format is called.
pub open spec fn format_meant(ext: Seq<char>) -> Result<TileFormat, Refusal> {
    if ext == "mvt"@ || ext == "pbf"@ {
        Ok(TileFormat::Mvt)
    } else if ext == "json"@ || ext == "geojson"@ {
        Ok(TileFormat::Json)
    } else {
        Err(
            refused(
                "unknown tile format "@ + quoted(ext) + "; use .mvt or .json"@,
                "bad_request"@,
            ),
        )
    }
}

pub fn tile_format(ext: &str) -> (r: Result<TileFormat, ApiError>)
    ensures
        match r {
            Ok(f) => format_meant(ext@) == Ok::<TileFormat, Refusal>(f),
            Err(e) => format_meant(ext@) == Err::<TileFormat, Refusal>(e.refusal()),
        },
{
    if *ext == *"mvt" || *ext == *"pbf" {
        Ok(TileFormat::Mvt)
    } else if *ext == *"json" || *ext == *"geojson" {
        Ok(TileFormat::Json)
    } else {
        let mut t = String::from_str("unknown tile format ");
        t.append(quote(ext).as_str());
        t.append("; use .mvt or .json");
        Err(ApiError::bad(t))
    }
}

} // verus!
