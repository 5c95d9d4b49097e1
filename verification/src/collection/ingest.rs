//! Taking in reports.
use super::points::{becomes, known_point, lemma_becomes, put_point, puts, shift_point};
use super::{blank, good_record, lemma_number, maybe, number_of, records, spot_of, wanted,
    Collection, Device, Record, NEVER};
use crate::geometry::{in_world, lemma_houses_less, Options};
use crate::index::update::{category_cells, copy_cells};
use crate::index::{blank_state, cells_ok, NetCluster, State, Stats};
use crate::register::Spot;
use crate::clock::{now_ms, shown};
use crate::json::{fields_of, json_members, maybes, members, pick_fields};
use crate::schema::{first_fault, Schema};
use crate::text::{first_of, first_solid, number, push_number, quote, quoted, texts};
use vstd::prelude::*;
use vstd::string::StringExecFns;
use vstd::utf8::encode_utf8;

verus! {

/// One position report.
#[derive(Debug, Clone)]
pub struct Report<'a> {
    pub id: &'a str,
    /// The position; nothing if a coordinate was not a finite number.
    pub at: Option<(i32, i32)>,
    /// `None` leaves whatever the device already had; `Some` replaces it.
    ///
    /// That asymmetry is the point: properties are slow-changing metadata and positions arrive
    /// many times a second, so a position report should not have to resend the number plate to
    /// avoid erasing it. To actually clear them, send an empty object. There is no partial
    /// update.
    pub props: Option<&'a str>,
    /// The filter cells this device belongs to.
    ///
    /// `None` means the report carried no filter values at all, which leaves the device's
    /// existing ones alone: a bare position report must not silently re-file a vehicle into
    /// whatever value happens to be index 0.
    pub cells: Option<&'a [u32]>,
    /// Optional source-side monotonic version, in milliseconds since the epoch. Unversioned
    /// reports use arrival order only until the device becomes versioned.
    pub updated_at_ms: Option<u64>,
}

/// What a [`Report`] says.
pub struct Told {
    pub id: Seq<char>,
    pub at: Option<(i32, i32)>,
    pub props: Option<Seq<char>>,
    pub cells: Option<Seq<u32>>,
    pub version: Option<u64>,
}

impl Report<'_> {
    pub open spec fn told(&self) -> Told {
        Told {
            id: self.id@,
            at: self.at,
            props: match self.props {
                Some(p) => Some(p@),
                None => None,
            },
            cells: match self.cells {
                Some(q) => Some(q@),
                None => None,
            },
            version: self.updated_at_ms,
        }
    }
}

/// The name of a device at the front of a message.
pub open spec fn device_named(id: Seq<char>) -> Seq<char> {
    "device "@ + quoted(id)
}

/// What a cell is called: with categories declared, it is one of them.
pub open spec fn cell_word(s: Schema) -> Seq<char> {
    if s.dims.len() == 1 && s.dims[0].name@ == "cat"@ {
        "category"@
    } else {
        "filter cell"@
    }
}

/// What is wrong with the `j`-th cell of a device.
pub open spec fn cell_fault(s: Schema, id: Seq<char>, q: Seq<u32>, j: int) -> Option<Seq<char>> {
    if q[j] as int >= s.cells {
        Some(
            device_named(id) + " has "@ + cell_word(s) + " "@ + number(q[j] as int)
                + " but this collection has "@ + number(s.cells as int),
        )
    } else {
        None
    }
}

/// What is wrong with the cells that a report or patch names.
pub open spec fn cells_fault(s: Schema, id: Seq<char>, cells: Option<Seq<u32>>) -> Option<
    Seq<char>,
> {
    match cells {
        None => None,
        Some(q) => if q.len() > s.max_cells_per_device {
            Some(
                device_named(id) + " lands in "@ + number(q.len() as int)
                    + " filter cells, over the "@ + number(s.max_cells_per_device as int)
                    + " this collection allows"@,
            )
        } else {
            first_fault(0, q.len() as int, |j: int| cell_fault(s, id, q, j))
        },
    }
}

/// What is wrong with the properties that a report or patch carries.
pub open spec fn props_fault(limit: usize, id: Seq<char>, props: Option<Seq<char>>) -> Option<
    Seq<char>,
> {
    match props {
        None => None,
        Some(p) => if first_solid(p) != Some('{') {
            Some(
                device_named(id) + ": props must be a JSON object, got "@ + p.take(
                    if p.len() < 20 {
                        p.len() as int
                    } else {
                        20
                    },
                ),
            )
        } else if limit == 0 {
            Some(device_named(id) + " sent props but this collection has max_props_bytes = 0"@)
        } else if encode_utf8(p).len() > limit {
            Some(
                device_named(id) + ": props are "@ + number(encode_utf8(p).len() as int)
                    + " bytes, the limit is "@ + number(limit as int),
            )
        } else {
            None
        },
    }
}

/// What is wrong with a report, but for what its properties hold.
pub open spec fn report_fault(s: Schema, limit: usize, t: Told) -> Option<Seq<char>> {
    if t.at is None {
        Some(device_named(t.id) + " sent a non-finite coordinate"@)
    } else {
        match cells_fault(s, t.id, t.cells) {
            Some(e) => Some(e),
            None => props_fault(limit, t.id, t.props),
        }
    }
}

/// What is wrong with what the properties hold: they cannot be read, where they have to be.
pub open spec fn reading_fault(
    names: Seq<Seq<char>>,
    id: Seq<char>,
    props: Option<Seq<char>>,
) -> Option<Seq<char>> {
    if names.len() == 0 {
        None
    } else {
        match props {
            None => None,
            Some(p) => match json_members(p) {
                Ok(_) => None,
                Err(e) => Some(device_named(id) + ": properties are unreadable: "@ + e),
            },
        }
    }
}

/// The searchable fields of a device, after properties came with a report.
pub open spec fn searchable(
    names: Seq<Seq<char>>,
    props: Option<Seq<char>>,
    before: Seq<Option<Seq<char>>>,
) -> Seq<Option<Seq<char>>> {
    match props {
        Some(p) => match json_members(p) {
            Ok(q) => if names.len() > 0 {
                fields_of(q, names)
            } else {
                before
            },
            Err(_) => before,
        },
        None => before,
    }
}

/// Once versioned, a device takes nothing that is unversioned, or no newer.
pub open spec fn stale(current: Option<u64>, incoming: Option<u64>) -> bool {
    match (current, incoming) {
        (None, _) => false,
        (Some(_), None) => true,
        (Some(c), Some(i)) => i <= c,
    }
}

/// What a collection is told by: when, and what it makes of what is left out.
pub struct Rules {
    pub now: u64,
    pub defaults: Seq<u32>,
    pub names: Seq<Seq<char>>,
}

/// A record after a report.
pub open spec fn rewritten(r: Record, t: Told, rules: Rules) -> Record {
    Record {
        id: r.id,
        seen: rules.now,
        version: if t.version is Some {
            t.version
        } else {
            r.version
        },
        at: t.at,
        cells: match t.cells {
            Some(q) => q,
            None => if r.live() {
                r.cells
            } else {
                rules.defaults
            },
        },
        props: if t.props is Some {
            t.props
        } else {
            r.props
        },
        text: searchable(rules.names, t.props, r.text),
    }
}

/// The records with `id` among them.
pub open spec fn with_id(recs: Seq<Record>, id: Seq<char>, fields: int) -> Seq<Record> {
    if number_of(recs, id) < recs.len() {
        recs
    } else {
        recs.push(blank(id, fields))
    }
}

/// Whether a report is taken.
pub open spec fn taken(recs: Seq<Record>, t: Told, rules: Rules) -> bool {
    let all = with_id(recs, t.id, rules.names.len() as int);
    !stale(all[number_of(recs, t.id)].version, t.version)
}

/// The records after a report.
pub open spec fn reported(recs: Seq<Record>, t: Told, rules: Rules) -> Seq<Record> {
    let all = with_id(recs, t.id, rules.names.len() as int);
    let n = number_of(recs, t.id);
    if taken(recs, t, rules) {
        all.update(n, rewritten(all[n], t, rules))
    } else {
        all
    }
}

/// The records after the first `k` reports.
pub open spec fn reported_all(recs: Seq<Record>, q: Seq<Told>, rules: Rules, k: int) -> Seq<Record>
    decreases k,
{
    if k <= 0 {
        recs
    } else {
        reported(reported_all(recs, q, rules, k - 1), q[k - 1], rules)
    }
}

/// What the index holds of the devices after a report, and how often it is built anew on the
/// way: where it does not end up with what the reported device's record says, it is built from
/// the records.
pub open spec fn listed_after(
    held: Map<u64, Spot>,
    recs: Seq<Record>,
    t: Told,
    rules: Rules,
    o: Options,
) -> (Map<u64, Spot>, int) {
    let n = number_of(recs, t.id);
    let next = reported(recs, t, rules);
    let spot = spot_of(next[n]);
    let cells = match t.cells {
        Some(q) => q,
        None => if !with_id(recs, t.id, rules.names.len() as int)[n].live() {
            spot.2
        } else if held.contains_key(n as u64) {
            held[n as u64].2
        } else {
            category_cells(o, 0)
        },
    };
    if !taken(recs, t, rules) {
        (held, 0)
    } else if cells == spot.2 {
        (held.insert(n as u64, spot), 0)
    } else {
        (wanted(next), 1)
    }
}

/// What the index holds of the devices after the first `k` reports, and how often it was built
/// anew on the way.
pub open spec fn listed_all(
    held: Map<u64, Spot>,
    recs: Seq<Record>,
    q: Seq<Told>,
    rules: Rules,
    o: Options,
    k: int,
) -> (Map<u64, Spot>, int)
    decreases k,
{
    if k <= 0 {
        (held, 0)
    } else {
        let (m, c) = listed_all(held, recs, q, rules, o, k - 1);
        let (next, d) = listed_after(m, reported_all(recs, q, rules, k - 1), q[k - 1], rules, o);
        (next, c + d)
    }
}

/// The index is built anew at most once for each report.
pub proof fn lemma_rebuilds(
    held: Map<u64, Spot>,
    recs: Seq<Record>,
    q: Seq<Told>,
    rules: Rules,
    o: Options,
    k: int,
)
    requires
        0 <= k,
    ensures
        0 <= listed_all(held, recs, q, rules, o, k).1 <= k,
    decreases k,
{
    if k > 0 {
        lemma_rebuilds(held, recs, q, rules, o, k - 1);
    }
}

/// How many of the first `k` reports are taken.
pub open spec fn taken_count(recs: Seq<Record>, q: Seq<Told>, rules: Rules, k: int) -> int
    decreases k,
{
    if k <= 0 {
        0
    } else {
        taken_count(recs, q, rules, k - 1) + (if taken(
            reported_all(recs, q, rules, k - 1),
            q[k - 1],
            rules,
        ) {
            1int
        } else {
            0
        })
    }
}

/// What the index makes of a report: the device goes where it was reported. A live device keeps
/// its cells unless the report names some, any other goes into those of the report or, without,
/// where a new device goes.
pub open spec fn indexed(a: State, b: State, recs: Seq<Record>, t: Told, rules: Rules) -> bool {
    let n = number_of(recs, t.id);
    if taken(recs, t, rules) {
        puts(
            a,
            b,
            n as u64,
            (t.at->0).0 as int,
            (t.at->0).1 as int,
            if n < recs.len() && recs[n].live() || t.cells is Some {
                t.cells
            } else {
                Some(rules.defaults)
            },
        )
    } else {
        b == a
    }
}

/// What the index makes of each report of a batch.
pub open spec fn by_reports(recs: Seq<Record>, q: Seq<Told>, rules: Rules) -> spec_fn(
    int,
    State,
    State,
) -> bool {
    |i: int, a: State, b: State| indexed(a, b, reported_all(recs, q, rules, i), q[i], rules)
}

/// What the index makes of a record that it is built from.
pub open spec fn by_records(recs: Seq<Record>) -> spec_fn(int, State, State) -> bool {
    |i: int, a: State, b: State|
        if recs[i].live() {
            let at = recs[i].at->0;
            puts(a, b, i as u64, at.0 as int, at.1 as int, Some(recs[i].cells))
        } else {
            b == a
        }
}

pub open spec fn tellings(v: Seq<Report>) -> Seq<Told> {
    Seq::new(v.len(), |i: int| v[i].told())
}

/// Why a batch of reports is refused, if it is: the first report that is faulty, or else the
/// first whose properties cannot be read.
pub open spec fn batch_fault(
    s: Schema,
    limit: usize,
    names: Seq<Seq<char>>,
    q: Seq<Told>,
) -> Option<Seq<char>> {
    match first_fault(0, q.len() as int, |i: int| report_fault(s, limit, q[i])) {
        Some(e) => Some(e),
        None => first_fault(
            0,
            q.len() as int,
            |i: int| reading_fault(names, q[i].id, q[i].props),
        ),
    }
}

/// A new message about a device.
fn about(id: &str) -> (s: String)
    ensures
        s@ == device_named(id@),
{
    let mut s = String::from_str("device ");
    s.append(quote(id).as_str());
    s
}

fn prefix(p: &str, n: usize) -> (s: String)
    ensures
        s@ == p@.take(
            if p@.len() < n {
                p@.len() as int
            } else {
                n as int
            },
        ),
{
    let len = p.unicode_len();
    let m = if len < n {
        len
    } else {
        n
    };
    p.substring_char(0, m).to_owned()
}

impl Collection {
    /// Filter cells a report or patch may name.
    pub(super) fn check_cells(&self, id: &str, cells: Option<&[u32]>) -> (r: Option<String>)
        ensures
            match r {
                Some(e) => cells_fault(
                    self.schema,
                    id@,
                    match cells {
                        Some(q) => Some(q@),
                        None => None,
                    },
                ) == Some(e@),
                None => cells_fault(
                    self.schema,
                    id@,
                    match cells {
                        Some(q) => Some(q@),
                        None => None,
                    },
                ) is None && (cells matches Some(q) ==> q@.len() <= self.schema.max_cells_per_device
                    && forall|j: int|
                    0 <= j < q@.len() ==> #[trigger] q@[j] < self.schema.cells),
            },
    {
        let q = match cells {
            None => {
                return None;
            },
            Some(q) => q,
        };
        if q.len() > self.schema.max_cells_per_device {
            let mut t = about(id);
            t.append(" lands in ");
            push_number(&mut t, q.len() as u64);
            t.append(" filter cells, over the ");
            push_number(&mut t, self.schema.max_cells_per_device as u64);
            t.append(" this collection allows");
            return Some(t);
        }
        let ghost f = |j: int| cell_fault(self.schema, id@, q@, j);
        let mut j: usize = 0;
        while j < q.len()
            invariant
                j <= q@.len(),
                f == (|j: int| cell_fault(self.schema, id@, q@, j)),
                first_fault(0, q@.len() as int, f) == first_fault(j as int, q@.len() as int, f),
                forall|i: int| 0 <= i < j ==> #[trigger] q@[i] < self.schema.cells,
                q@.len() <= self.schema.max_cells_per_device,
                cells == Some(q),
            decreases q@.len() - j,
        {
            if q[j] as usize >= self.schema.cells {
                let mut t = about(id);
                t.append(" has ");
                if self.schema.dims.len() == 1 && *self.schema.dims[0].name.as_str() == *"cat" {
                    t.append("category");
                } else {
                    t.append("filter cell");
                }
                t.append(" ");
                push_number(&mut t, q[j] as u64);
                t.append(" but this collection has ");
                push_number(&mut t, self.schema.cells as u64);
                proof {
                    assert(f(j as int) == Some(t@));
                }
                return Some(t);
            }
            proof {
                assert(f(j as int) is None);
            }
            j = j + 1;
        }
        None
    }

    /// Properties a report or patch may carry.
    pub(super) fn check_props(&self, id: &str, props: Option<&str>) -> (r: Option<String>)
        ensures
            match r {
                Some(e) => props_fault(
                    self.props_limit,
                    id@,
                    match props {
                        Some(p) => Some(p@),
                        None => None,
                    },
                ) == Some(e@),
                None => props_fault(
                    self.props_limit,
                    id@,
                    match props {
                        Some(p) => Some(p@),
                        None => None,
                    },
                ) is None,
            },
    {
        let p = match props {
            None => {
                return None;
            },
            Some(p) => p,
        };
        let object = match first_of(p) {
            Some(c) => c == '{',
            None => false,
        };
        if !object {
            let mut t = about(id);
            t.append(": props must be a JSON object, got ");
            t.append(prefix(p, 20).as_str());
            return Some(t);
        }
        if self.props_limit == 0 {
            let mut t = about(id);
            t.append(" sent props but this collection has max_props_bytes = 0");
            return Some(t);
        }
        let bytes = p.as_bytes().len();
        if bytes > self.props_limit {
            let mut t = about(id);
            t.append(": props are ");
            push_number(&mut t, bytes as u64);
            t.append(" bytes, the limit is ");
            push_number(&mut t, self.props_limit as u64);
            return Some(t);
        }
        None
    }

    /// The searchable fields in some properties, if any are declared.
    pub(super) fn read_text(&self, id: &str, props: Option<&str>) -> (r: Result<
        Option<Vec<Option<String>>>,
        String,
    >)
        ensures
            ({
                let names = texts(self.config.text@);
                let p: Option<Seq<char>> = match props {
                    Some(p) => Some(p@),
                    None => None,
                };
                match r {
                    Err(e) => reading_fault(names, id@, p) == Some(e@),
                    Ok(None) => reading_fault(names, id@, p) is None && (names.len() == 0 || p
                        is None),
                    Ok(Some(v)) => reading_fault(names, id@, p) is None && names.len() > 0 && p
                        is Some && json_members(p->0) is Ok && maybes(v@) == fields_of(
                        json_members(p->0)->Ok_0,
                        names,
                    ),
                }
            }),
    {
        if self.config.text.len() == 0 {
            return Ok(None);
        }
        match props {
            None => Ok(None),
            Some(p) => match members(p) {
                Ok(v) => Ok(Some(pick_fields(&v, &self.config.text))),
                Err(e) => {
                    let mut t = about(id);
                    t.append(": properties are unreadable: ");
                    t.append(e.as_str());
                    Err(t)
                },
            },
        }
    }
}

/// What is wanted of the first `i` devices.
spec fn wanted_to(recs: Seq<Record>, i: int) -> Map<u64, Spot> {
    wanted(recs.take(i))
}

pub(super) fn no_fields(n: usize) -> (v: Vec<Option<String>>)
    ensures
        maybes(v@) == Seq::new(n as nat, |i: int| None::<Seq<char>>),
{
    let mut v: Vec<Option<String>> = Vec::new();
    let mut i: usize = 0;
    while i < n
        invariant
            i <= n,
            v@.len() == i,
            forall|j: int| 0 <= j < i ==> #[trigger] v@[j] is None,
        decreases n - i,
    {
        v.push(None);
        i = i + 1;
    }
    proof {
        assert(maybes(v@) =~= Seq::new(n as nat, |i: int| None::<Seq<char>>));
    }
    v
}

impl Collection {
    /// The number of a device, given out if it has none.
    pub(super) fn intern(&mut self, id: &str) -> (n: u64)
        requires
            old(self).sound(),
        ensures
            final(self).sound(),
            final(self).same_setup(*old(self)),
            final(self).tallies() == old(self).tallies(),
            final(self).index == old(self).index,
            final(self).recs() == with_id(old(self).recs(), id@, old(self).fields()),
            n == number_of(old(self).recs(), id@),
            n < final(self).devices.len(),
            final(self).devices.len() <= old(self).devices.len() + 1,
            old(self).agrees() ==> final(self).agrees(),
            forall|m: int| #[trigger] old(self).agrees_on(m) ==> final(self).agrees_on(m),
    {
        let ghost o = *self;
        proof {
            self.lemma_numbered(id@);
        }
        match self.numbers.get(id) {
            Some(n) => {
                return *n;
            },
            None => {},
        }
        let n = self.devices.len() as u64;
        let fields = self.config.text.len();
        self.devices.push(
            Device {
                id: id.to_owned(),
                last_seen: NEVER,
                last_update: None,
                position: None,
                cells: Vec::new(),
                props: None,
                text: no_fields(fields),
            },
        );
        self.numbers.insert(id.to_owned(), n);
        proof {
            let r = self.devices[n as int].record();
            assert(r.cells =~= seq![]);
            assert(r.text =~= blank(id@, fields as int).text);
            assert(r == blank(id@, fields as int));
            assert(self.recs() =~= o.recs().push(r));
            assert forall|i: int| 0 <= i < self.devices.len() implies self.numbers@.contains_key(
                (#[trigger] self.devices[i]).id@,
            ) && self.numbers@[self.devices[i].id@] == i by {
                if i < n {
                    assert(self.devices[i] == o.devices[i]);
                    assert(o.numbers@.contains_key(o.devices[i].id@));
                }
            }
            assert forall|k: Seq<char>| #[trigger]
                self.numbers@.contains_key(k) implies self.numbers@[k] < self.devices.len()
                && self.devices[self.numbers@[k] as int].id@ == k by {
                if k != id@ {
                    assert(o.numbers@.contains_key(k));
                    assert(self.devices[o.numbers@[k] as int] == o.devices[o.numbers@[k] as int]);
                }
            }
            assert forall|i: int| 0 <= i < self.devices.len() implies good_record(
                (#[trigger] self.devices[i]).record(),
                self.opts(),
                self.fields(),
            ) by {
                if i < n {
                    assert(self.devices[i] == o.devices[i]);
                }
            }
            let (a, b) = (wanted(o.recs()), wanted(self.recs()));
            assert forall|k: u64| #[trigger] b.contains_key(k) <==> a.contains_key(k) by {
                if k < n {
                    assert(self.recs()[k as int] == o.recs()[k as int]);
                }
            }
            assert forall|k: u64| #[trigger] b.contains_key(k) implies b[k] == a[k] by {
                assert(self.recs()[k as int] == o.recs()[k as int]);
            }
            assert(a =~= b);
        }
        n
    }

    /// Rebuild the derived tree from the records. This is cold-path recovery, not normal update
    /// behavior.
    pub fn rebuild_index(&mut self)
        requires
            old(self).sound(),
            old(self).opts().houses(old(self).devices.len() as int),
        ensures
            final(self).sound(),
            final(self).agrees(),
            final(self).same_setup(*old(self)),
            final(self).tallies() == old(self).tallies(),
            final(self).devices == old(self).devices,
            final(self).numbers == old(self).numbers,
            final(self).index.counters() == old(self).index.counters(),
            final(self).index.slots() <= old(self).devices.len(),
            exists|c: Stats| #[trigger]
                becomes(
                    blank_state(old(self).opts()),
                    (State { net: final(self).index.net(), counters: c }),
                    by_records(old(self).recs()),
                    old(self).devices.len() as int,
                ),
    {
        let ghost o = *self;
        let ghost q = self.recs();
        proof {
            self.index.law_invariants();
        }
        let mut fresh = NetCluster::new(self.index.options());
        let stats = self.index.get_stats();
        let ghost none = fresh.state();
        proof {
            lemma_becomes(none, none, none, by_records(q), 0);
            assert(fresh.net().register() =~= wanted_to(q, 0)) by {
                assert forall|n: u64| !#[trigger] fresh.net().register().contains_key(n) by {
                    if fresh.net().knows(n) {
                        let s = fresh.net().holder(n);
                        assert(fresh.net().named(s, n));
                    }
                }
            }
        }
        let mut n: usize = 0;
        while n < self.devices.len()
            invariant
                *self == o,
                o.sound(),
                q == o.recs(),
                n <= self.devices.len(),
                o.opts().houses(o.devices.len() as int),
                fresh.wf(),
                fresh.opts() == o.opts(),
                fresh.slots() <= n,
                0 <= fresh.slots(),
                fresh.net().register() == wanted_to(q, n as int),
                becomes(none, fresh.state(), by_records(q), n as int),
            decreases self.devices.len() - n,
        {
            let d = &self.devices[n];
            let ghost m = fresh.state();
            let ghost before = fresh.net().register();
            proof {
                assert(good_record(o.devices[n as int].record(), o.opts(), o.fields()));
                assert(q[n as int] == o.devices[n as int].record());
                lemma_houses_less(o.opts(), o.devices.len() as int, fresh.slots() + 1);
            }
            if d.last_seen != NEVER {
                match d.position {
                    Some((x, y)) => {
                        put_point(&mut fresh, n as u64, x, y, d.cells.as_slice());
                    },
                    None => {},
                }
            }
            proof {
                fresh.law_invariants();
                lemma_becomes(none, m, fresh.state(), by_records(q), n as int);
                let (a, b) = (wanted_to(q, n as int), wanted_to(q, n + 1));
                assert(fresh.net().register() =~= b) by {
                    assert forall|k: u64| #[trigger] b.contains_key(k) <==> (if k == n {
                        q[n as int].live()
                    } else {
                        a.contains_key(k)
                    }) by {
                        if k < n {
                            assert(q.take(n + 1)[k as int] == q.take(n as int)[k as int]);
                        }
                    }
                    assert forall|k: u64| #[trigger] b.contains_key(k) && k != n implies b[k]
                        == a[k] by {
                        assert(q.take(n + 1)[k as int] == q.take(n as int)[k as int]);
                    }
                    assert(!a.contains_key(n as u64));
                    if q[n as int].live() {
                        assert(b[n as u64] == spot_of(q[n as int]));
                        assert(before.insert(n as u64, spot_of(q[n as int])) =~= b);
                    } else {
                        assert(a =~= b);
                    }
                }
            }
            n = n + 1;
        }
        let ghost built = fresh.state();
        fresh.set_stats(stats);
        self.index = fresh;
        proof {
            assert(becomes(
                blank_state(o.opts()),
                (State { net: self.index.net(), counters: built.counters }),
                by_records(q),
                o.devices.len() as int,
            ));
            assert(q.take(q.len() as int) =~= q);
        }
    }

    /// Whether the index has of device `n` what its record says.
    fn in_step(&self, n: u64) -> (r: bool)
        requires
            self.sound(),
            n < self.devices.len(),
            self.devices[n as int].record().live(),
        ensures
            r == self.agrees_on(n as int),
    {
        let d = &self.devices[n as usize];
        proof {
            assert(good_record(self.devices[n as int].record(), self.opts(), self.fields()));
            assert(self.recs()[n as int] == d.record());
        }
        match (known_point(&self.index, n), d.position) {
            (Some((x, y, cells)), Some((u, v))) => x == u && y == v && same_cells(
                &cells,
                &d.cells,
            ),
            _ => false,
        }
    }
}

pub(super) fn same_cells(a: &Vec<u32>, b: &Vec<u32>) -> (r: bool)
    ensures
        r == (a@ == b@),
{
    if a.len() != b.len() {
        return false;
    }
    let mut i: usize = 0;
    while i < a.len()
        invariant
            i <= a.len(),
            a.len() == b.len(),
            forall|j: int| 0 <= j < i ==> #[trigger] a@[j] == b@[j],
        decreases a.len() - i,
    {
        if a[i] != b[i] {
            return false;
        }
        i = i + 1;
    }
    proof {
        assert(a@ =~= b@);
    }
    true
}

/// Overwriting one record.
pub(super) proof fn lemma_update(v: Seq<Device>, n: int, d: Device)
    requires
        0 <= n < v.len(),
    ensures
        records(v.update(n, d)) == records(v).update(n, d.record()),
{
    assert(records(v.update(n, d)) =~= records(v).update(n, d.record()));
}

impl Collection {
    /// How this collection takes a report at `now`.
    pub open spec fn rules(&self, now: u64) -> Rules {
        Rules { now, defaults: self.default_cells@, names: texts(self.config.text@) }
    }

    /// A device's record changes, and the index of it: what is still in order.
    pub(super) proof fn lemma_written(&self, o: Collection, n: int)
        requires
            o.sound(),
            self.same_setup(o),
            0 <= n < o.devices.len(),
            self.devices.len() == o.devices.len(),
            forall|i: int| 0 <= i < o.devices.len() && i != n ==> self.devices[i] == o.devices[i],
            self.devices[n].id@ == o.devices[n].id@,
            self.numbers == o.numbers,
            good_record(self.devices[n].record(), o.opts(), o.fields()),
            self.index.wf(),
            self.index.opts() == o.opts(),
            self.index.net().register().remove(n as u64) == o.index.net().register().remove(
                n as u64,
            ),
            n <= u64::MAX,
        ensures
            self.sound(),
            forall|m: int|
                0 <= m <= u64::MAX && m != n && #[trigger] o.agrees_on(m) ==> self.agrees_on(m),
            o.agrees() && self.agrees_on(n) ==> self.agrees(),
    {
        assert forall|i: int| 0 <= i < self.devices.len() implies self.numbers@.contains_key(
            (#[trigger] self.devices[i]).id@,
        ) && self.numbers@[self.devices[i].id@] == i by {
            assert(o.numbers@.contains_key(o.devices[i].id@));
        }
        assert forall|k: Seq<char>| #[trigger] self.numbers@.contains_key(k) implies self.numbers@[k]
            < self.devices.len() && self.devices[self.numbers@[k] as int].id@ == k by {
            assert(o.numbers@.contains_key(k));
        }
        assert forall|i: int| 0 <= i < self.devices.len() implies good_record(
            (#[trigger] self.devices[i]).record(),
            self.opts(),
            self.fields(),
        ) by {
            if i != n {
                assert(self.devices[i] == o.devices[i]);
            }
        }
        let (a, b) = (o.index.net().register(), self.index.net().register());
        let (p, q) = (wanted(o.recs()), wanted(self.recs()));
        assert forall|m: u64| m != n implies (#[trigger] b.contains_key(m) <==> a.contains_key(m))
            && (b.contains_key(m) ==> b[m] == a[m]) by {
            assert(b.remove(n as u64).contains_key(m) <==> a.remove(n as u64).contains_key(m));
            assert(b.remove(n as u64)[m] == a.remove(n as u64)[m]);
        }
        assert forall|m: u64| #[trigger] b.contains_key(m) implies m < self.devices.len() by {
            if m != n {
                assert(a.contains_key(m));
            }
        }
        assert forall|m: u64| m != n implies (#[trigger] q.contains_key(m) <==> p.contains_key(m))
            && (q.contains_key(m) ==> q[m] == p[m]) by {
            if m < self.devices.len() {
                assert(self.recs()[m as int] == o.recs()[m as int]);
            }
        }
        assert forall|m: int| 0 <= m <= u64::MAX && m != n && #[trigger] o.agrees_on(m) implies self.agrees_on(
            m,
        ) by {
            let k = m as u64;
            assert(k != n);
            assert(b.contains_key(k) <==> a.contains_key(k));
            assert(q.contains_key(k) <==> p.contains_key(k));
        }
        if o.agrees() && self.agrees_on(n) {
            assert forall|m: u64| #[trigger] b.contains_key(m) <==> q.contains_key(m) by {
                if m != n {
                    assert(a.contains_key(m) <==> p.contains_key(m));
                    assert(q.contains_key(m) <==> p.contains_key(m));
                }
            }
            assert forall|m: u64| #[trigger] b.contains_key(m) implies b[m] == q[m] by {
                if m != n {
                    assert(a[m] == p[m]);
                    assert(q.contains_key(m) <==> p.contains_key(m));
                }
            }
            assert(b =~= q);
        }
    }

    /// Take one report.
    fn take_report(&mut self, r: &Report, text: Option<Vec<Option<String>>>, now: u64) -> (accepted:
        bool)
        requires
            old(self).sound(),
            old(self).room_for(1),
            now != NEVER,
            r.at matches Some((x, y)) && in_world(x as int) && in_world(y as int),
            r.cells matches Some(q) ==> cells_ok(old(self).opts(), q@),
            match text {
                None => texts(old(self).config.text@).len() == 0 || r.told().props is None,
                Some(v) => r.told().props is Some && json_members(r.told().props->0) is Ok
                    && texts(old(self).config.text@).len() > 0 && maybes(v@) == fields_of(
                    json_members(r.told().props->0)->Ok_0,
                    texts(old(self).config.text@),
                ),
            },
        ensures
            final(self).sound(),
            final(self).same_setup(*old(self)),
            final(self).recs() == reported(old(self).recs(), r.told(), old(self).rules(now)),
            accepted == taken(old(self).recs(), r.told(), old(self).rules(now)),
            ({
                let (held, rebuilt) = listed_after(
                    old(self).index.net().register(),
                    old(self).recs(),
                    r.told(),
                    old(self).rules(now),
                    old(self).opts(),
                );
                &&& final(self).index.net().register() == held
                &&& final(self).tallies() == (super::Tallies {
                    repairs: old(self).repairs.wrapping_add(rebuilt as u64),
                    ..old(self).tallies()
                })
            }),
            final(self).devices.len() <= old(self).devices.len() + 1,
            final(self).index.slots() <= old(self).index.slots() + 1 || final(self).index.slots()
                <= final(self).devices.len(),
            old(self).agrees() ==> final(self).agrees() && final(self).repairs
                == old(self).repairs,
            accepted ==> final(self).agrees_on(number_of(old(self).recs(), r.id@)),
            forall|m: int|
                0 <= m <= u64::MAX && #[trigger] old(self).agrees_on(m) ==> final(self).agrees_on(
                    m,
                ),
            old(self).agrees() ==> indexed(
                old(self).index.state(),
                final(self).index.state(),
                old(self).recs(),
                r.told(),
                old(self).rules(now),
            ),
    {
        let ghost start = *self;
        let ghost t = r.told();
        let ghost rules = self.rules(now);
        let n = self.intern(r.id);
        let ghost o = *self;
        let k = n as usize;
        proof {
            assert(good_record(o.devices[n as int].record(), o.opts(), o.fields()));
            assert(o.recs()[n as int] == o.devices[n as int].record());
            start.lemma_numbered(r.id@);
        }
        match self.devices[k].last_update {
            Some(current) => {
                let late = match r.updated_at_ms {
                    None => true,
                    Some(incoming) => incoming <= current,
                };
                if late {
                    return false;
                }
            },
            None => {},
        }
        let was_live = self.devices[k].last_seen != NEVER;
        let (x, y) = match r.at {
            Some(p) => p,
            None => (0, 0),
        };
        let cells: Vec<u32> = match r.cells {
            Some(q) => copy_cells(q),
            None => if was_live {
                copy_cells(self.devices[k].cells.as_slice())
            } else {
                copy_cells(self.default_cells.as_slice())
            },
        };
        if was_live {
            shift_point(&mut self.index, n, x, y, r.cells);
        } else {
            put_point(&mut self.index, n, x, y, cells.as_slice());
        }
        let ghost mid = self.index;
        let version = match r.updated_at_ms {
            Some(v) => Some(v),
            None => self.devices[k].last_update,
        };
        let props: Option<String> = match r.props {
            Some(p) => Some(p.to_owned()),
            None => match &self.devices[k].props {
                Some(p) => Some(p.clone()),
                None => None,
            },
        };
        let text: Vec<Option<String>> = match text {
            Some(v) => v,
            None => copy_fields(&self.devices[k].text),
        };
        let id = self.devices[k].id.clone();
        let d = Device {
            id,
            last_seen: now,
            last_update: version,
            position: Some((x, y)),
            cells,
            props,
            text,
        };
        self.devices.set(k, d);
        proof {
            let rec = self.devices[n as int].record();
            let want = rewritten(o.recs()[n as int], t, rules);
            assert(rec.text =~= want.text);
            assert(rec == want);
            lemma_update(o.devices@, n as int, self.devices[n as int]);
            assert(self.recs() =~= o.recs().update(n as int, rec));
            let (a, b) = (o.index.net().register(), self.index.net().register());
            assert(b.remove(n) =~= a.remove(n));
            self.lemma_written(o, n as int);
            if o.agrees() {
                assert(a.contains_key(n) <==> wanted(o.recs()).contains_key(n));
                assert(self.recs()[n as int] == rec);
                assert(self.agrees_on(n as int));
            }
        }
        if !self.in_step(n) {
            proof {
                lemma_houses_less(
                    self.opts(),
                    start.devices.len() + 1,
                    self.devices.len() as int,
                );
            }
            self.rebuild_index();
            self.repairs = self.repairs.wrapping_add(1);
        }
        proof {
            let was = start.index.net().register();
            let spot = spot_of(self.recs()[n as int]);
            assert(mid.net().register() =~= was.insert(n, mid.net().register()[n]));
            assert(mid.net().register()[n].2 == spot.2 ==> mid.net().register()[n] == spot);
        }
        true
    }
}

pub(super) fn copy_fields(v: &Vec<Option<String>>) -> (r: Vec<Option<String>>)
    ensures
        maybes(r@) == maybes(v@),
{
    let mut r: Vec<Option<String>> = Vec::new();
    let mut i: usize = 0;
    while i < v.len()
        invariant
            i <= v.len(),
            r@.len() == i,
            forall|j: int| 0 <= j < i ==> maybe(#[trigger] r@[j]) == maybe(v@[j]),
        decreases v.len() - i,
    {
        let c: Option<String> = match &v[i] {
            Some(s) => Some(s.clone()),
            None => None,
        };
        r.push(c);
        i = i + 1;
    }
    proof {
        assert(maybes(r@) =~= maybes(v@)) by {
            assert forall|j: int| 0 <= j < r@.len() implies maybes(r@)[j] == maybes(v@)[j] by {
                assert(maybe(r@[j]) == maybe(v@[j]));
            }
        }
    }
    r
}

/// What can be asked of a report before it is looked at: its position lies in the world, and it
/// names no cell twice.
pub open spec fn well_placed(at: Option<(i32, i32)>, cells: Option<Seq<u32>>) -> bool {
    &&& at matches Some((x, y)) ==> in_world(x as int) && in_world(y as int)
    &&& cells matches Some(q) ==> q.no_duplicates()
}

/// The records after all reports number no more than before and one for each.
pub proof fn lemma_reported_len(recs: Seq<Record>, q: Seq<Told>, rules: Rules, k: int)
    requires
        0 <= k <= q.len(),
    ensures
        recs.len() <= reported_all(recs, q, rules, k).len() <= recs.len() + k,
        0 <= taken_count(recs, q, rules, k) <= k,
    decreases k,
{
    if k > 0 {
        lemma_reported_len(recs, q, rules, k - 1);
        lemma_number(reported_all(recs, q, rules, k - 1), q[k - 1].id, 0);
    }
}

/// The time that a report bears when it arrives at a time: [`NEVER`] stands for a device that is
/// not live, so the moment before it takes its place.
pub open spec fn borne(now: u64) -> u64 {
    if now == NEVER {
        (NEVER - 1) as u64
    } else {
        now
    }
}

/// The time that a report bears when it arrives at a time.
pub fn report_time_at(now: u64) -> (t: u64)
    ensures
        t == borne(now),
        t != NEVER,
{
    if now == NEVER {
        NEVER - 1
    } else {
        now
    }
}

/// The time that what arrives now is reported at: what the clock shows, but never [`NEVER`].
pub fn report_time() -> (now: u64)
    ensures
        exists|t: Option<u128>| now == borne(#[trigger] shown(t)),
        now != NEVER,
{
    report_time_at(now_ms())
}

impl Collection {
    /// What becomes of the collection when a batch is reported at a time, and the answer: how
    /// many reports were taken, or what is wrong with the first that cannot be. A batch is taken
    /// whole or not at all.
    pub open spec fn takes(
        &self,
        n: Collection,
        q: Seq<Told>,
        now: u64,
        r: Result<usize, String>,
    ) -> bool {
        let k = q.len() as int;
        let rules = self.rules(now);
        let fault = batch_fault(
            self.schema,
            self.props_limit,
            rules.names,
            q,
        );
        let listed = listed_all(
            self.index.net().register(),
            self.recs(),
            q,
            rules,
            self.opts(),
            k,
        );
        match r {
            Err(e) => fault == Some(e@) && n == *self,
            Ok(taken) => {
                &&& fault is None
                &&& n.sound()
                &&& n.same_setup(*self)
                &&& n.recs() == reported_all(self.recs(), q, rules, k)
                &&& taken == taken_count(self.recs(), q, rules, k)
                &&& n.tallies() == (super::Tallies {
                    ingested: self.ingested.wrapping_add(taken as u64),
                    stale_reports: self.stale_reports.wrapping_add((k - taken) as u64),
                    repairs: self.repairs.wrapping_add(listed.1 as u64),
                    ..self.tallies()
                })
                &&& n.index.net().register() == listed.0
                &&& self.agrees() ==> n.agrees() && n.repairs
                    == self.repairs
                &&& forall|m: int|
                    0 <= m <= u64::MAX && #[trigger] self.agrees_on(m)
                        ==> n.agrees_on(m)
                &&& forall|i: int|
                    0 <= i < k ==> #[trigger] n.followed(*self, q, rules, i)
                &&& self.agrees() ==> becomes(
                    self.index.state(),
                    n.index.state(),
                    by_reports(self.recs(), q, rules),
                    k,
                )
                &&& n.grown(*self, k)
            },
        }
    }

    /// Take a batch of position reports that arrives now; see [`Collection::upsert_at`].
    pub fn upsert(&mut self, reports: &[Report]) -> (r: Result<usize, String>)
        requires
            old(self).sound(),
            old(self).room_for(reports@.len() as int),
            forall|i: int|
                0 <= i < reports@.len() ==> well_placed(
                    (#[trigger] reports@[i]).at,
                    reports@[i].told().cells,
                ),
        ensures
            exists|now: u64|
                now != NEVER && #[trigger] old(self).takes(
                    *final(self),
                    tellings(reports@),
                    now,
                    r,
                ),
    {
        self.upsert_at(reports, report_time())
    }

    /// Take a batch of position reports, all or nothing: a report that is refused refuses the
    /// batch before anything is written. Returns how many were taken; a report that is older
    /// than what is known is not.
    pub fn upsert_at(&mut self, reports: &[Report], now: u64) -> (r: Result<usize, String>)
        requires
            old(self).sound(),
            old(self).room_for(reports@.len() as int),
            now != NEVER,
            forall|i: int|
                0 <= i < reports@.len() ==> well_placed(
                    (#[trigger] reports@[i]).at,
                    reports@[i].told().cells,
                ),
        ensures
            old(self).takes(*final(self), tellings(reports@), now, r),
    {
        let ghost q = tellings(reports@);
        let ghost o = *self;
        let ghost rules = self.rules(now);
        let ghost f = |i: int| report_fault(o.schema, o.props_limit, q[i]);
        let ghost g = |i: int| reading_fault(rules.names, q[i].id, q[i].props);
        let len = reports.len();
        let mut i: usize = 0;
        while i < len
            invariant
                i <= len,
                len == reports@.len(),
                *self == o,
                q == tellings(reports@),
                f == (|i: int| report_fault(o.schema, o.props_limit, q[i])),
                first_fault(0, len as int, f) == first_fault(i as int, len as int, f),
                rules.names == texts(o.config.text@),
                g == (|i: int| reading_fault(rules.names, q[i].id, q[i].props)),
                forall|j: int| 0 <= j < i ==> (#[trigger] reports@[j]).at is Some,
                forall|j: int|
                    0 <= j < i ==> ((#[trigger] reports@[j]).cells matches Some(c) ==> c@.len()
                        <= o.schema.max_cells_per_device && forall|m: int|
                        0 <= m < c@.len() ==> #[trigger] c@[m] < o.schema.cells),
            decreases len - i,
        {
            let r = &reports[i];
            proof {
                assert(q[i as int] == r.told());
                assert(f(i as int) == report_fault(o.schema, o.props_limit, q[i as int]));
            }
            if r.at.is_none() {
                let mut t = about(r.id);
                t.append(" sent a non-finite coordinate");
                return Err(t);
            }
            match self.check_cells(r.id, r.cells) {
                Some(e) => {
                    return Err(e);
                },
                None => {},
            }
            match self.check_props(r.id, r.props) {
                Some(e) => {
                    return Err(e);
                },
                None => {},
            }
            i = i + 1;
        }
        let mut read: Vec<Option<Vec<Option<String>>>> = Vec::new();
        i = 0;
        while i < len
            invariant
                i <= len,
                len == reports@.len(),
                *self == o,
                q == tellings(reports@),
                f == (|i: int| report_fault(o.schema, o.props_limit, q[i])),
                first_fault(0, len as int, f) is None,
                rules.names == texts(o.config.text@),
                g == (|i: int| reading_fault(rules.names, q[i].id, q[i].props)),
                first_fault(0, len as int, g) == first_fault(i as int, len as int, g),
                read@.len() == i,
                forall|j: int| 0 <= j < i ==> text_fits(#[trigger] read@[j], q[j], rules.names),
            decreases len - i,
        {
            let r = &reports[i];
            proof {
                assert(q[i as int] == r.told());
                assert(g(i as int) == reading_fault(rules.names, q[i as int].id, q[i as int].props));
            }
            match self.read_text(r.id, r.props) {
                Ok(v) => {
                    read.push(v);
                },
                Err(e) => {
                    return Err(e);
                },
            }
            i = i + 1;
        }
        let mut turned: Vec<Option<Vec<Option<String>>>> = Vec::new();
        while read.len() > 0
            invariant
                read@.len() + turned@.len() == len,
                len == q.len(),
                forall|j: int|
                    0 <= j < read@.len() ==> text_fits(#[trigger] read@[j], q[j], rules.names),
                forall|j: int|
                    0 <= j < turned@.len() ==> text_fits(
                        #[trigger] turned@[j],
                        q[len - 1 - j],
                        rules.names,
                    ),
            decreases read@.len(),
        {
            match read.pop() {
                Some(v) => {
                    turned.push(v);
                },
                None => {},
            }
        }
        let (accepted, stale_count) = self.take_all(reports, turned, now);
        let ghost mid = *self;
        self.ingested = self.ingested.wrapping_add(accepted as u64);
        self.stale_reports = self.stale_reports.wrapping_add(stale_count as u64);
        proof {
            assert(self.numbered());
            assert(self.sound());
            assert forall|m: int| 0 <= m <= u64::MAX && #[trigger] o.agrees_on(m) implies self.agrees_on(
                m,
            ) by {
                assert(mid.agrees_on(m));
            }
            assert forall|i: int| 0 <= i < len implies #[trigger] self.followed(o, q, rules, i) by {
                assert(mid.followed(o, q, rules, i));
            }
        }
        Ok(accepted)
    }

    /// The `j`-th report, if it was taken, is followed by the index.
    pub open spec fn followed(&self, o: Collection, q: Seq<Told>, rules: Rules, j: int) -> bool {
        let before = reported_all(o.recs(), q, rules, j);
        taken(before, q[j], rules) ==> self.agrees_on(number_of(before, q[j].id))
    }

    #[verifier::rlimit(50)]
    fn take_all(
        &mut self,
        reports: &[Report],
        turned: Vec<Option<Vec<Option<String>>>>,
        now: u64,
    ) -> (r: (usize, usize))
        requires
            old(self).sound(),
            old(self).room_for(reports@.len() as int),
            now != NEVER,
            turned@.len() == reports@.len(),
            forall|j: int|
                0 <= j < turned@.len() ==> text_fits(
                    #[trigger] turned@[j],
                    reports@[reports@.len() - 1 - j].told(),
                    texts(old(self).config.text@),
                ),
            forall|j: int| 0 <= j < reports@.len() ==> (#[trigger] reports@[j]).at is Some,
            forall|j: int|
                0 <= j < reports@.len() ==> ((#[trigger] reports@[j]).cells matches Some(c) ==> c@.len()
                    <= old(self).schema.max_cells_per_device && forall|m: int|
                    0 <= m < c@.len() ==> #[trigger] c@[m] < old(self).schema.cells),
            forall|j: int|
                0 <= j < reports@.len() ==> well_placed(
                    (#[trigger] reports@[j]).at,
                    reports@[j].told().cells,
                ),
        ensures
            ({
                let q = tellings(reports@);
                let k = q.len() as int;
                let rules = old(self).rules(now);
                &&& final(self).sound()
                &&& final(self).same_setup(*old(self))
                &&& final(self).recs() == reported_all(old(self).recs(), q, rules, k)
                &&& r.0 == taken_count(old(self).recs(), q, rules, k)
                &&& r.0 + r.1 == k
                &&& final(self).tallies() == (super::Tallies {
                    repairs: old(self).repairs.wrapping_add(
                        listed_all(
                            old(self).index.net().register(),
                            old(self).recs(),
                            q,
                            rules,
                            old(self).opts(),
                            k,
                        ).1 as u64,
                    ),
                    ..old(self).tallies()
                })
                &&& final(self).index.net().register() == listed_all(
                    old(self).index.net().register(),
                    old(self).recs(),
                    q,
                    rules,
                    old(self).opts(),
                    k,
                ).0
                &&& old(self).agrees() ==> final(self).agrees() && final(self).repairs
                    == old(self).repairs
                &&& forall|m: int|
                    0 <= m <= u64::MAX && #[trigger] old(self).agrees_on(m)
                        ==> final(self).agrees_on(m)
                &&& forall|i: int|
                    0 <= i < k ==> #[trigger] final(self).followed(*old(self), q, rules, i)
                &&& old(self).agrees() ==> becomes(
                    old(self).index.state(),
                    final(self).index.state(),
                    by_reports(old(self).recs(), q, rules),
                    k,
                )
                &&& final(self).grown(*old(self), k)
            }),
    {
        let mut turned = turned;
        let ghost q = tellings(reports@);
        let ghost o = *self;
        let ghost rules = self.rules(now);
        let ghost held = self.index.net().register();
        let len = reports.len();
        let mut accepted: usize = 0;
        let mut stale_count: usize = 0;
        let mut i: usize = 0;
        proof {
            let a = self.index.state();
            lemma_becomes(a, a, a, by_reports(o.recs(), q, rules), 0);
        }
        while i < len
            invariant
                i <= len,
                len == reports@.len(),
                now != NEVER,
                q == tellings(reports@),
                rules == o.rules(now),
                self.sound(),
                self.same_setup(o),
                self.recs() == reported_all(o.recs(), q, rules, i as int),
                accepted == taken_count(o.recs(), q, rules, i as int),
                accepted + stale_count == i,
                held == o.index.net().register(),
                self.index.net().register() == listed_all(
                    held,
                    o.recs(),
                    q,
                    rules,
                    o.opts(),
                    i as int,
                ).0,
                self.tallies() == (super::Tallies {
                    repairs: o.repairs.wrapping_add(
                        listed_all(held, o.recs(), q, rules, o.opts(), i as int).1 as u64,
                    ),
                    ..o.tallies()
                }),
                self.room_for(len - i),
                self.grown(o, i as int),
                o.agrees() ==> self.agrees() && self.repairs == o.repairs,
                forall|m: int|
                    0 <= m <= u64::MAX && #[trigger] o.agrees_on(m) ==> self.agrees_on(m),
                forall|j: int| 0 <= j < i ==> #[trigger] self.followed(o, q, rules, j),
                o.agrees() ==> becomes(
                    o.index.state(),
                    self.index.state(),
                    by_reports(o.recs(), q, rules),
                    i as int,
                ),
                turned@.len() == len - i,
                forall|j: int|
                    0 <= j < turned@.len() ==> text_fits(
                        #[trigger] turned@[j],
                        q[len - 1 - j],
                        rules.names,
                    ),
                forall|j: int| 0 <= j < len ==> (#[trigger] reports@[j]).at is Some,
                forall|j: int|
                    0 <= j < len ==> ((#[trigger] reports@[j]).cells matches Some(c) ==> c@.len()
                        <= o.schema.max_cells_per_device && forall|m: int|
                        0 <= m < c@.len() ==> #[trigger] c@[m] < o.schema.cells),
                forall|j: int|
                    0 <= j < len ==> well_placed(
                        (#[trigger] reports@[j]).at,
                        reports@[j].told().cells,
                    ),
            decreases len - i,
        {
            let r = &reports[i];
            proof {
                assert(text_fits(turned@[len - 1 - i], q[i as int], rules.names));
            }
            let text = match turned.pop() {
                Some(v) => v,
                None => None,
            };
            let ghost before = *self;
            proof {
                assert(q[i as int] == r.told());
                assert(well_placed(reports@[i as int].at, reports@[i as int].told().cells));
                self.lemma_room(1, len - i);
            }
            if self.take_report(r, text, now) {
                accepted = accepted + 1;
            } else {
                stale_count = stale_count + 1;
            }
            proof {
                self.lemma_room_left(before, len - i);
                lemma_rebuilds(held, o.recs(), q, rules, o.opts(), i as int);
                if o.agrees() {
                    let (a, m, b) = (o.index.state(), before.index.state(), self.index.state());
                    lemma_becomes(a, m, b, by_reports(o.recs(), q, rules), i as int);
                }
                assert forall|j: int| 0 <= j < i + 1 implies #[trigger] self.followed(
                    o,
                    q,
                    rules,
                    j,
                ) by {
                    if j < i {
                        assert(before.followed(o, q, rules, j));
                        lemma_number(reported_all(o.recs(), q, rules, j), q[j].id, 0);
                        lemma_reported_grows(o.recs(), q, rules, j, i as int);
                    }
                }
            }
            i = i + 1;
        }
        (accepted, stale_count)
    }

    /// At most `k` devices were added.
    pub open spec fn grown(&self, o: Collection, k: int) -> bool {
        let most = if o.index.slots() > o.devices.len() {
            o.index.slots()
        } else {
            o.devices.len() as int
        };
        self.devices.len() <= o.devices.len() + k && self.index.slots() <= most + k
    }

    /// Where at most `j` devices were added, the rest of the room is left.
    pub proof fn lemma_grown(&self, o: Collection, j: int, k: int)
        requires
            o.sound(),
            self.sound(),
            self.same_setup(o),
            self.grown(o, j),
            0 <= j,
            0 <= k,
            o.room_for(j + k),
        ensures
            self.room_for(k),
    {
        self.index.law_invariants();
        let (a, b) = (o.index.slots() + j + k, o.devices.len() + j + k);
        if o.index.slots() > o.devices.len() {
            lemma_houses_less(self.opts(), a, self.index.slots() + k);
        } else {
            lemma_houses_less(self.opts(), b, self.index.slots() + k);
        }
        lemma_houses_less(self.opts(), b, self.devices.len() + k);
    }

    /// Room for many is room for fewer.
    pub(super) proof fn lemma_room(&self, j: int, k: int)
        requires
            self.room_for(k),
            self.sound(),
            0 <= j <= k,
        ensures
            self.room_for(j),
    {
        self.index.law_invariants();
        lemma_houses_less(self.opts(), self.index.slots() + k, self.index.slots() + j);
        lemma_houses_less(self.opts(), self.devices.len() + k, self.devices.len() + j);
    }

    /// One device takes the room of one device.
    pub(super) proof fn lemma_room_left(&self, o: Collection, k: int)
        requires
            o.sound(),
            self.sound(),
            self.same_setup(o),
            o.room_for(k),
            1 <= k,
            self.devices.len() <= o.devices.len() + 1,
            self.index.slots() <= o.index.slots() + 1 || self.index.slots() <= self.devices.len(),
        ensures
            self.room_for(k - 1),
    {
        self.index.law_invariants();
        let j = k - 1;
        let (a, b) = (o.index.slots() + k, o.devices.len() + k);
        if self.index.slots() <= o.index.slots() + 1 {
            lemma_houses_less(self.opts(), a, self.index.slots() + j);
        } else {
            lemma_houses_less(self.opts(), b, self.index.slots() + j);
        }
        lemma_houses_less(self.opts(), b, self.devices.len() + j);
    }
}

/// The fields read for a report.
pub open spec fn text_fits(v: Option<Vec<Option<String>>>, t: Told, names: Seq<Seq<char>>) -> bool {
    match v {
        None => names.len() == 0 || t.props is None,
        Some(v) => t.props is Some && json_members(t.props->0) is Ok && names.len() > 0 && maybes(
            v@,
        ) == fields_of(json_members(t.props->0)->Ok_0, names),
    }
}

proof fn lemma_reported_grows(recs: Seq<Record>, q: Seq<Told>, rules: Rules, j: int, k: int)
    requires
        0 <= j <= k <= q.len(),
    ensures
        reported_all(recs, q, rules, j).len() <= reported_all(recs, q, rules, k).len(),
    decreases k - j,
{
    if j < k {
        lemma_reported_grows(recs, q, rules, j, k - 1);
        lemma_number(reported_all(recs, q, rules, k - 1), q[k - 1].id, 0);
    }
}

} // verus!
