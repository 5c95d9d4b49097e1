//! How things are shown and read, told by what they mean: counts as labels, numbers in dictionary
//! order, searchable fields, the cells of a device that names no value, and which devices an answer
//! is about.
use crate::answers::{drawn, Selection};
use crate::clock::shown;
use crate::clusters::Window;
use crate::collection::ingest::{borne, reported, reported_all, taken, taken_count, Told};
use crate::collection::query::{drawings, pictured_all, Candidates, OutFeature};
use crate::collection::upkeep::{lemma_no_values, plain_cells};
use crate::collection::{lemma_number, Collection};
use crate::decimal::{before, decimal_before, digits};
use crate::feature::{abbreviated, Feature};
use crate::geojson::{feature_fault, geometry_fault};
use crate::json::{fields_of, json_members, maybes, member_at, Member};
use crate::schema::{Schema, Tables};
use crate::text::{decimal, integer, lowercased, number, texts};
use vstd::prelude::*;

verus! {

/// **A count as a label**: the number itself below a thousand; above, the nearest number of
/// thousands, of tenths of them below ten thousand, the greater of two that are equally near.
pub proof fn law_label(n: int) -> (k: int)
    requires
        0 <= n,
    ensures
        n < 1000 ==> abbreviated(n) == number(n),
        n >= 10_000 ==> 1000 * k - 500 <= n < 1000 * k + 500 && abbreviated(n) == number(k) + seq![
            'k',
        ],
        1000 <= n < 10_000 ==> {
            &&& 100 * k - 50 <= n < 100 * k + 50
            &&& k % 10 == 0 ==> abbreviated(n) == number(k / 10) + seq!['k']
            &&& k % 10 != 0 ==> abbreviated(n) == number(k / 10) + seq!['.'] + number(k % 10) + seq![
                'k',
            ]
        },
{
    let k = if n >= 10_000 {
        (n + 500) / 1000
    } else {
        (n + 50) / 100
    };
    let t = abbreviated(n);
    if n >= 10_000 {
        assert(t =~= number(k) + seq!['k']);
    } else if n >= 1000 {
        if k % 10 == 0 {
            assert(t =~= number(k / 10) + seq!['k']);
        } else {
            assert(t =~= number(k / 10) + seq!['.'] + number(k % 10) + seq!['k']);
        }
    }
    k
}

/// **A reading of the clock**: the milliseconds since the epoch, and 0 before it.
pub proof fn law_clock(t: Option<u128>)
    ensures
        t is None ==> shown(t) == 0,
        t matches Some(ms) ==> ms <= u64::MAX ==> shown(t) == ms,
{
}

/// **The time of a report** is when it arrives; never the one that stands for a device that is not
/// live.
pub proof fn law_report_time(now: u64)
    ensures
        now < u64::MAX ==> borne(now) == now,
        now == u64::MAX ==> borne(now) == u64::MAX - 1,
{
}

proof fn lemma_before(a: Seq<u8>, b: Seq<u8>, k: int)
    requires
        0 <= k <= a.len(),
        k < b.len(),
        forall|i: int| 0 <= i < k ==> #[trigger] a[i] == b[i],
        k == a.len() || a[k] < b[k],
    ensures
        before(a, b),
    decreases k,
{
    if k > 0 {
        let (x, y) = (a.skip(1), b.skip(1));
        assert forall|i: int| 0 <= i < k - 1 implies #[trigger] x[i] == y[i] by {
            assert(a[i + 1] == b[i + 1]);
        }
        lemma_before(x, y, k - 1);
    }
}

/// **Dictionary order**: of two numbers the one comes first whose digit is the smaller where their
/// digits first differ, or whose digits end there.
pub proof fn law_dictionary(a: int, b: int, k: int)
    requires
        0 <= a,
        0 <= b,
        0 <= k <= digits(a).len(),
        k < digits(b).len(),
        forall|i: int| 0 <= i < k ==> #[trigger] digits(a)[i] == digits(b)[i],
        k == digits(a).len() || digits(a)[k] < digits(b)[k],
    ensures
        decimal_before(a, b),
        !decimal_before(b, a),
{
    lemma_before(digits(a), digits(b), k);
    crate::decimal::lemma_decimal_total(a, b);
}

/// **Digits are decimal**: the last one is the remainder by ten, the others are those of the
/// quotient.
pub proof fn law_digits(n: int)
    requires
        0 <= n,
    ensures
        n < 10 ==> number(n).len() == 1,
        n >= 10 ==> number(n).len() == number(n / 10).len() + 1 && number(n).drop_last() == number(
            n / 10,
        ),
        number(n).last() as int == '0' as int + n % 10,
{
    if n >= 10 {
        assert(number(n).drop_last() =~= number(n / 10));
    }
}

/// **Whole numbers and tenths**: a minus before the digits of what is below zero; a point before
/// the last digit of tenths.
pub proof fn law_written_numbers(n: int)
    requires
        0 <= n,
    ensures
        integer(n) == number(n),
        n > 0 ==> integer(-n) == seq!['-'] + number(n),
        decimal(n) == number(n / 10) + seq!['.'] + number(n % 10),
{
    reveal_strlit("-");
    reveal_strlit(".");
    assert("-"@ =~= seq!['-']);
    assert("."@ =~= seq!['.']);
}

/// **Which geometry is taken**: a `Point` with a pair of coordinates, and no other.
pub proof fn law_geometry(ty: Option<Seq<char>>, pair: Option<bool>)
    ensures
        geometry_fault(ty, pair) is None <==> ty == Some("Point"@) && pair == Some(true),
{
}

/// **Which feature is taken**: a `Feature`, or what does not say what it is, with a geometry.
pub proof fn law_feature_type(ty: Option<Seq<char>>, saw_geometry: bool)
    ensures
        feature_fault(ty, saw_geometry) is None <==> saw_geometry && (ty is None || ty == Some(
            "Feature"@,
        )),
{
}

proof fn lemma_member_at(q: Seq<(Seq<char>, Member)>, name: Seq<char>, i: int, m: int)
    requires
        0 <= i <= m <= q.len(),
        forall|k: int| i <= k < m ==> (#[trigger] q[k]).0 != name,
        m < q.len() ==> q[m].0 == name,
    ensures
        m < q.len() ==> member_at(q, name, i) == m,
        m == q.len() ==> member_at(q, name, i) == -1,
    decreases m - i,
{
    if i < m {
        lemma_member_at(q, name, i + 1, m);
    }
}

/// **A searchable field** is the text of the first member of that name, in lower case; none where
/// there is no such member, or where it is not text.
pub proof fn law_field(q: Seq<(Seq<char>, Member)>, names: Seq<Seq<char>>, j: int, m: int)
    requires
        0 <= j < names.len(),
        0 <= m <= q.len(),
        forall|k: int| 0 <= k < m ==> (#[trigger] q[k]).0 != names[j],
        m < q.len() ==> q[m].0 == names[j],
    ensures
        fields_of(q, names).len() == names.len(),
        m == q.len() ==> fields_of(q, names)[j] is None,
        m < q.len() ==> match q[m].1 {
            Member::Text(s) => fields_of(q, names)[j] == Some(lowercased(s)),
            _ => fields_of(q, names)[j] is None,
        },
{
    lemma_member_at(q, names[j], 0, m);
}

/// **What is reported can be searched**: after a report with properties a device has the fields
/// that these properties have; after one without, those it had.
pub proof fn law_report_is_searchable(
    c: Collection,
    n: Collection,
    t: Told,
    now: u64,
    d: int,
    q: Seq<(Seq<char>, Member)>,
)
    requires
        c.wf(),
        n.wf(),
        c.takes(n, seq![t], now, Ok(1)),
        0 <= d < n.devices.len(),
        n.devices[d].id@ == t.id,
    ensures
        t.props matches Some(p) ==> json_members(p) == Ok::<Seq<(Seq<char>, Member)>, Seq<char>>(q)
            && c.config.text.len() > 0 ==> maybes(n.devices[d].text@) == fields_of(
            q,
            texts(c.config.text@),
        ),
        t.props is None && d < c.devices.len() ==> maybes(n.devices[d].text@) == maybes(
            c.devices[d].text@,
        ),
{
    let rules = c.rules(now);
    let one = seq![t];
    let (a, b) = (c.recs(), n.recs());
    reveal_with_fuel(reported_all, 2);
    reveal_with_fuel(taken_count, 2);
    assert(one[0] == t);
    assert(b == reported(a, t, rules));
    assert(taken(a, t, rules));
    lemma_number(a, t.id, 0);
    n.lemma_numbered(t.id);
    assert(n.numbers@[n.devices[d].id@] == d);
    assert(b[d] == n.devices[d].record());
    if d < c.devices.len() {
        assert(a[d] == c.devices[d].record());
        c.lemma_numbered(t.id);
    }
}

/// **A device that names no value** is in the cells that a report without values reaches.
pub proof fn law_default_cells(s: Schema, t: Tables)
    requires
        s.dims.len() > 0 || s.shapes.len() == 0,
    ensures
        s.reached(t, true, Map::<Seq<char>, Vec<String>>::empty()) == plain_cells(s),
{
    lemma_no_values(s, t, s.dims.len() as int);
    let r = crate::encoding::resolved_all(
        s.dims@,
        t,
        true,
        Map::<Seq<char>, Vec<String>>::empty(),
        s.dims.len() as int,
    );
    assert(r.0->Ok_0 =~= Seq::new(s.dims.len() as nat, |d: int| seq![0u32]));
}

/// **Which devices an answer is about**: none where no device can be meant; those of the list where
/// ids are given, and those that pass every search, else all that the map shows.
pub proof fn law_markers(
    c: Collection,
    s: Selection,
    w: Window,
    zoom: int,
    out: Seq<OutFeature>,
)
    requires
        drawn(c, s, w, zoom, out),
    ensures
        s.cat == -2 ==> out.len() == 0,
        s.cat != -2 && s.ids is None && s.preds.len() == 0 ==> exists|fs: Seq<Feature>| #[trigger]
            c.index.sees(fs, s.cat as int, zoom, w) && drawings(out) == pictured_all(c.recs(), fs),
        s.cat != -2 && s.ids is None && s.preds.len() > 0 ==> drawings(out) == c.selection(
            w,
            zoom,
            s.cat,
            s.preds@,
            Candidates::All,
        ),
        s.cat != -2 && s.ids is Some ==> exists|v: &[String]|
            v@ == s.ids->0@ && drawings(out) == #[trigger] c.selection(
                w,
                zoom,
                s.cat,
                s.preds@,
                Candidates::Ids(v),
            ),
{
    if s.cat != -2 && !s.plain() {
        let cands = choose|cands: Candidates| #[trigger]
            s.looks_at(cands) && drawings(out) == c.selection(w, zoom, s.cat, s.preds@, cands);
        match cands {
            Candidates::All => {},
            Candidates::Ids(v) => {
                assert(v@ == s.ids->0@);
                assert(drawings(out) == c.selection(w, zoom, s.cat, s.preds@, Candidates::Ids(v)));
            },
        }
    }
}

} // verus!
