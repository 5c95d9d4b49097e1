//! Creating a collection, patching, removing and expiring devices, and keeping them on disk.
use super::ingest::{cells_fault, props_fault, reading_fault, searchable, stale, well_placed, Told};
use super::points::{becomes, drop_point, lemma_becomes, path, puts, shift_point,
    takes_out};
use super::{blank, good_record, maybe, number_of, wanted, Collection, Device, Record, Tallies,
    NEVER};
use crate::clock::now_ms;
use crate::config::Config;
use crate::encoding::{all_cells, fan, resolved_all, spread};
use crate::index::update::copy_cells;
use crate::index::{blank_state, cells_ok, NetCluster, State};
use crate::schema::{first_fault, Interner, Interning, Schema, Shape};
use crate::text::texts;
use vstd::hash_map::StringHashMap;
use vstd::prelude::*;

verus! {

/// Value 0 in every dimension is one cell per shape.
proof fn lemma_default_spread(sh: Shape, lists: Seq<Seq<u32>>, k: int, acc: int)
    requires
        0 <= k <= sh.dims.len(),
        forall|j: int| 0 <= j < sh.dims.len() ==> #[trigger] sh.dims[j] < lists.len(),
        forall|d: int| 0 <= d < lists.len() ==> #[trigger] lists[d] == seq![0u32],
    ensures
        spread(sh, lists, k, acc).len() == 1,
    decreases sh.dims.len() - k,
{
    if k < sh.dims.len() {
        let list = lists[sh.dims[k] as int];
        assert(list == seq![0u32]);
        assert(list.len() == 1);
        lemma_default_spread(sh, lists, k + 1, acc + list[0] * sh.strides[k]);
        reveal_with_fuel(fan, 2);
        assert(fan(sh, lists, k, acc, 1) == fan(sh, lists, k, acc, 0) + spread(
            sh,
            lists,
            k + 1,
            acc + list[0] * sh.strides[k],
        ));
    }
}

proof fn lemma_default_cells(s: Schema, lists: Seq<Seq<u32>>, n: int)
    requires
        s.wf(),
        0 <= n <= s.shapes.len(),
        lists.len() == s.dims.len(),
        forall|d: int| 0 <= d < lists.len() ==> #[trigger] lists[d] == seq![0u32],
    ensures
        all_cells(s.shapes@, lists, n).len() == n,
    decreases n,
{
    if n > 0 {
        lemma_default_cells(s, lists, n - 1);
        assert(s.shape_ok(n - 1));
        lemma_default_spread(s.shapes[n - 1], lists, 0, s.shapes[n - 1].base as int);
    }
}

/// The cells of a device that names no value: those of value 0 in every dimension.
pub open spec fn plain_cells(s: Schema) -> Seq<u32> {
    all_cells(
        s.shapes@,
        Seq::new(s.dims.len() as nat, |d: int| seq![0u32]),
        s.shapes.len() as int,
    )
}

/// Without values every dimension takes value 0.
pub(crate) proof fn lemma_no_values(s: Schema, t: crate::schema::Tables, n: int)
    requires
        0 <= n <= s.dims.len(),
    ensures
        ({
            let r = resolved_all(s.dims@, t, true, Map::<Seq<char>, Vec<String>>::empty(), n);
            &&& r.1 == t
            &&& r.0 matches Ok(q) && q.len() == n && forall|d: int|
                0 <= d < n ==> #[trigger] q[d] == seq![0u32]
        }),
    decreases n,
{
    if n > 0 {
        lemma_no_values(s, t, n - 1);
    }
}

/// The report time before which a device is silent for too long.
pub open spec fn cutoff(now: u64, ttl: u64) -> int {
    if ttl == 0 || ttl * 1000 >= now {
        0
    } else {
        now - ttl * 1000
    }
}

pub(super) fn cutoff_at(now: u64, ttl: u64) -> (c: u64)
    ensures
        c == cutoff(now, ttl),
{
    let span = ttl as u128 * 1000;
    if ttl == 0 || span >= now as u128 {
        0
    } else {
        now - span as u64
    }
}

impl Collection {
    /// A collection made at a time from a name and a configuration, without a device.
    pub open spec fn fresh(&self, name: Seq<char>, config: Config, now: u64) -> bool {
        &&& self.wf()
        &&& self.name@ == name
        &&& self.config == config
        &&& self.ttl == config.ttl_seconds
        &&& self.props_limit == config.max_props_bytes
        &&& self.recs() == Seq::<Record>::empty()
        &&& self.default_cells@ == plain_cells(self.schema)
        &&& self.index.slots() == 0
        &&& self.index.state() == blank_state(self.opts())
        &&& self.created_ms == now
        &&& self.restored == 0
        &&& self.last_snapshot_ms == 0
        &&& self.last_snapshot_bytes == 0
        &&& self.snapshot_failures == 0
        &&& self.tallies() == (Tallies {
            ingested: 0,
            expired: 0,
            stale_reports: 0,
            patched: 0,
            repairs: 0,
        })
        &&& self.interner@ == Seq::new(
            self.schema.dims.len() as nat,
            |d: int| Map::<Seq<char>, u32>::empty(),
        )
    }

    /// A collection without a device, made now.
    pub fn new(name: &str, config: Config) -> (c: Self)
        requires
            config.acceptable(),
        ensures
            exists|now: u64| #[trigger] c.fresh(name@, config, now),
    {
        Collection::new_at(name, config, now_ms())
    }

    /// A collection without a device.
    pub fn new_at(name: &str, config: Config, now: u64) -> (c: Self)
        requires
            config.acceptable(),
        ensures
            c.fresh(name@, config, now),
    {
        let schema = match config.schema() {
            Ok(s) => s,
            Err(e) => {
                proof {
                    config.lemma_acceptable();
                }
                vstd::pervasive::unreached()
            },
        };
        proof {
            config.lemma_options(schema);
        }
        let index = NetCluster::new(config.options(&schema));
        let interner = Interner::new(&schema);
        let ghost t0 = interner@;
        let mut default_cells: Vec<u32> = Vec::new();
        let none: StringHashMap<Vec<String>> = StringHashMap::new();
        let mut values = Interning { schema: &schema, interner };
        proof {
            let n = schema.dims.len() as int;
            lemma_no_values(schema, t0, n);
            let lists = resolved_all(
                schema.dims@,
                t0,
                true,
                Map::<Seq<char>, Vec<String>>::empty(),
                n,
            ).0->Ok_0;
            lemma_default_cells(schema, lists, schema.shapes.len() as int);
            assert(lists =~= Seq::new(schema.dims.len() as nat, |d: int| seq![0u32]));
            assert(none@ =~= Map::<Seq<char>, Vec<String>>::empty());
            assert(schema.filed(t0, true, none@) is Ok);
        }
        let _ = schema.cells_for(&none, &mut default_cells, &mut values);
        let interner = values.interner;
        let c = Collection {
            name: name.to_owned(),
            ttl: config.ttl_seconds,
            props_limit: config.max_props_bytes,
            config,
            schema,
            default_cells,
            interner,
            index,
            devices: Vec::new(),
            numbers: StringHashMap::new(),
            created_ms: now,
            ingested: 0,
            expired: 0,
            last_snapshot_ms: 0,
            last_snapshot_bytes: 0,
            snapshot_failures: 0,
            restored: 0,
            stale_reports: 0,
            patched: 0,
            repairs: 0,
        };
        proof {
            assert(c.recs() =~= Seq::<Record>::empty());
            let net = c.index.net();
            assert forall|n: u64| !#[trigger] net.register().contains_key(n) by {
                if net.knows(n) {
                    assert(net.named(net.holder(n), n));
                }
            }
            assert(net.register() =~= wanted(c.recs()));
        }
        c
    }
}

/// One metadata-only update: filter values and/or properties for a device that is already live,
/// carrying no position.
///
/// It does not move the device, and it deliberately does **not** refresh the TTL: the position
/// stream is what proves a vehicle is still there, and an external system flipping a flag on a
/// vehicle that stopped reporting must not keep that ghost on the map. A device that has already
/// expired is reported back as unknown rather than resurrected.
#[derive(Debug, Clone)]
pub struct Patch<'a> {
    pub id: &'a str,
    /// The filter cells to re-file the device into. `None` leaves them alone.
    pub cells: Option<&'a [u32]>,
    /// Replacement properties. `None` leaves them alone, `Some` replaces the whole object.
    pub props: Option<&'a str>,
    pub updated_at_ms: Option<u64>,
}

impl Patch<'_> {
    pub open spec fn told(&self) -> Told {
        Told {
            id: self.id@,
            at: None,
            props: match self.props {
                Some(p) => Some(p@),
                None => None,
            },
            cells: match self.cells {
                Some(q) => Some(q@),
                None => None,
            },
            version: self.updated_at_ms,
        }
    }
}

/// What a batch of patches did. Unknown ids are collected rather than failing the batch: a device
/// expiring between the moment an external system read it and the moment the patch lands is a
/// race, not a malformed request.
#[derive(Debug, Clone)]
pub struct PatchOutcome {
    pub applied: usize,
    pub stale: usize,
    pub unknown: Vec<String>,
}

/// What becomes of a patch.
pub enum Fate {
    Applied,
    Stale,
    Unknown,
}

pub open spec fn fate(recs: Seq<Record>, t: Told) -> Fate {
    let n = number_of(recs, t.id);
    if n >= recs.len() || !recs[n].live() {
        Fate::Unknown
    } else if stale(recs[n].version, t.version) {
        Fate::Stale
    } else {
        Fate::Applied
    }
}

/// The records after a patch.
pub open spec fn patched(recs: Seq<Record>, t: Told, names: Seq<Seq<char>>) -> Seq<Record> {
    let n = number_of(recs, t.id);
    if fate(recs, t) is Applied {
        let r = recs[n];
        recs.update(
            n,
            Record {
                version: if t.version is Some {
                    t.version
                } else {
                    r.version
                },
                cells: match t.cells {
                    Some(q) => q,
                    None => r.cells,
                },
                props: if t.props is Some {
                    t.props
                } else {
                    r.props
                },
                text: searchable(names, t.props, r.text),
                ..r
            },
        )
    } else {
        recs
    }
}

/// What the index makes of a patch: the device is filed anew where it stands, if cells are given.
pub open spec fn refiles(a: State, b: State, recs: Seq<Record>, t: Told) -> bool {
    let n = number_of(recs, t.id);
    if fate(recs, t) is Applied && t.cells is Some {
        let at = recs[n].at->0;
        puts(a, b, n as u64, at.0 as int, at.1 as int, t.cells)
    } else {
        b == a
    }
}

/// What the index makes of each patch of a batch.
pub open spec fn by_patches(recs: Seq<Record>, q: Seq<Told>, names: Seq<Seq<char>>) -> spec_fn(
    int,
    State,
    State,
) -> bool {
    |i: int, a: State, b: State| refiles(a, b, patched_all(recs, q, names, i), q[i])
}

/// The records after the first `k` patches.
pub open spec fn patched_all(recs: Seq<Record>, q: Seq<Told>, names: Seq<Seq<char>>, k: int) -> Seq<
    Record,
>
    decreases k,
{
    if k <= 0 {
        recs
    } else {
        patched(patched_all(recs, q, names, k - 1), q[k - 1], names)
    }
}

/// What the first `k` patches did: how many were applied, how many were stale, and which devices
/// were unknown.
pub open spec fn outcome(recs: Seq<Record>, q: Seq<Told>, names: Seq<Seq<char>>, k: int) -> (
    int,
    int,
    Seq<Seq<char>>,
)
    decreases k,
{
    if k <= 0 {
        (0, 0, seq![])
    } else {
        let (a, s, u) = outcome(recs, q, names, k - 1);
        match fate(patched_all(recs, q, names, k - 1), q[k - 1]) {
            Fate::Applied => (a + 1, s, u),
            Fate::Stale => (a, s + 1, u),
            Fate::Unknown => (a, s, u.push(q[k - 1].id)),
        }
    }
}

pub open spec fn patches_of(v: Seq<Patch>) -> Seq<Told> {
    Seq::new(v.len(), |i: int| v[i].told())
}

/// Why a batch of patches is refused, if it is.
pub open spec fn patch_fault(
    s: Schema,
    limit: usize,
    names: Seq<Seq<char>>,
    q: Seq<Told>,
) -> Option<Seq<char>> {
    match first_fault(
        0,
        q.len() as int,
        |i: int|
            match cells_fault(s, q[i].id, q[i].cells) {
                Some(e) => Some(e),
                None => props_fault(limit, q[i].id, q[i].props),
            },
    ) {
        Some(e) => Some(e),
        None => first_fault(
            0,
            q.len() as int,
            |i: int| reading_fault(names, q[i].id, q[i].props),
        ),
    }
}

impl Collection {
    /// Apply one patch.
    fn take_patch(&mut self, p: &Patch, text: Option<Vec<Option<String>>>) -> (f: Fate)
        requires
            old(self).sound(),
            old(self).room_for(1),
            p.cells matches Some(q) ==> cells_ok(old(self).opts(), q@),
            super::ingest::text_fits(text, p.told(), texts(old(self).config.text@)),
        ensures
            final(self).sound(),
            final(self).same_setup(*old(self)),
            final(self).tallies() == old(self).tallies(),
            f == fate(old(self).recs(), p.told()),
            final(self).recs() == patched(
                old(self).recs(),
                p.told(),
                texts(old(self).config.text@),
            ),
            final(self).devices.len() == old(self).devices.len(),
            final(self).index.slots() <= old(self).index.slots() + 1,
            old(self).agrees() ==> final(self).agrees(),
            forall|m: int|
                0 <= m <= u64::MAX && #[trigger] old(self).agrees_on(m) ==> final(self).agrees_on(
                    m,
                ),
            refiles(
                old(self).index.state(),
                final(self).index.state(),
                old(self).recs(),
                p.told(),
            ),
    {
        let ghost o = *self;
        let ghost t = p.told();
        proof {
            self.lemma_numbered(p.id@);
        }
        let n = match self.numbers.get(p.id) {
            Some(n) => *n,
            None => {
                return Fate::Unknown;
            },
        };
        let k = n as usize;
        proof {
            assert(o.devices[n as int].id@ == p.id@);
            assert(good_record(o.devices[n as int].record(), o.opts(), o.fields()));
            assert(o.recs()[n as int] == o.devices[n as int].record());
        }
        if self.devices[k].last_seen == NEVER {
            return Fate::Unknown;
        }
        let (x, y) = match self.devices[k].position {
            Some(at) => at,
            None => {
                return Fate::Unknown;
            },
        };
        match self.devices[k].last_update {
            Some(current) => {
                let late = match p.updated_at_ms {
                    None => true,
                    Some(incoming) => incoming <= current,
                };
                if late {
                    return Fate::Stale;
                }
            },
            None => {},
        }
        let cells: Vec<u32> = match p.cells {
            Some(q) => {
                shift_point(&mut self.index, n, x, y, Some(q));
                copy_cells(q)
            },
            None => copy_cells(self.devices[k].cells.as_slice()),
        };
        let version = match p.updated_at_ms {
            Some(v) => Some(v),
            None => self.devices[k].last_update,
        };
        let props: Option<String> = match p.props {
            Some(q) => Some(q.to_owned()),
            None => match &self.devices[k].props {
                Some(q) => Some(q.clone()),
                None => None,
            },
        };
        let text: Vec<Option<String>> = match text {
            Some(v) => v,
            None => super::ingest::copy_fields(&self.devices[k].text),
        };
        let id = self.devices[k].id.clone();
        let last_seen = self.devices[k].last_seen;
        let d = Device {
            id,
            last_seen,
            last_update: version,
            position: Some((x, y)),
            cells,
            props,
            text,
        };
        self.devices.set(k, d);
        proof {
            let rec = self.devices[n as int].record();
            let want = patched(o.recs(), t, texts(o.config.text@))[n as int];
            assert(rec.text =~= want.text);
            assert(rec == want);
            super::ingest::lemma_update(o.devices@, n as int, self.devices[n as int]);
            assert(self.recs() =~= o.recs().update(n as int, rec));
            let (a, b) = (o.index.net().register(), self.index.net().register());
            assert(b.remove(n) =~= a.remove(n));
            self.lemma_written(o, n as int);
            assert(self.recs()[n as int] == rec);
            if o.agrees_on(n as int) {
                assert(self.agrees_on(n as int));
            }
            if o.agrees() {
                assert(a.contains_key(n) <==> wanted(o.recs()).contains_key(n));
                assert(o.agrees_on(n as int));
            }
        }
        Fate::Applied
    }

    /// What becomes of the collection when a batch is patched, and the answer. A batch is applied
    /// whole or not at all, but for devices that are not live, which are reported back.
    pub open spec fn retouches(
        &self,
        n: Collection,
        q: Seq<Told>,
        r: Result<PatchOutcome, String>,
    ) -> bool {
        let k = q.len() as int;
        let names = texts(self.config.text@);
        let fault = patch_fault(self.schema, self.props_limit, names, q);
        match r {
            Err(e) => fault == Some(e@) && n == *self,
            Ok(out) => {
                &&& fault is None
                &&& n.sound()
                &&& n.same_setup(*self)
                &&& n.recs() == patched_all(self.recs(), q, names, k)
                &&& (out.applied as int, out.stale as int, texts(out.unknown@)) == outcome(
                    self.recs(),
                    q,
                    names,
                    k,
                )
                &&& n.tallies() == (Tallies {
                    patched: self.patched.wrapping_add(out.applied as u64),
                    stale_reports: self.stale_reports.wrapping_add(out.stale as u64),
                    ..self.tallies()
                })
                &&& self.agrees() ==> n.agrees()
                &&& forall|m: int|
                    0 <= m <= u64::MAX && #[trigger] self.agrees_on(m) ==> n.agrees_on(m)
                &&& becomes(
                    self.index.state(),
                    n.index.state(),
                    by_patches(self.recs(), q, names),
                    k,
                )
            },
        }
    }

    /// Why a batch of patches would be refused, if it would.
    pub fn check_patches(&self, patches: &[Patch]) -> (r: Option<String>)
        ensures
            maybe(r) == patch_fault(
                self.schema,
                self.props_limit,
                texts(self.config.text@),
                patches_of(patches@),
            ),
    {
        let ghost q = patches_of(patches@);
        let ghost names = texts(self.config.text@);
        let ghost f = |i: int|
            match cells_fault(self.schema, q[i].id, q[i].cells) {
                Some(e) => Some(e),
                None => props_fault(self.props_limit, q[i].id, q[i].props),
            };
        let ghost g = |i: int| reading_fault(names, q[i].id, q[i].props);
        let len = patches.len();
        let mut i: usize = 0;
        while i < len
            invariant
                i <= len,
                len == patches@.len(),
                q == patches_of(patches@),
                f == (|i: int|
                    match cells_fault(self.schema, q[i].id, q[i].cells) {
                        Some(e) => Some(e),
                        None => props_fault(self.props_limit, q[i].id, q[i].props),
                    }),
                first_fault(0, len as int, f) == first_fault(i as int, len as int, f),
            decreases len - i,
        {
            let p = &patches[i];
            proof {
                assert(q[i as int] == p.told());
                assert(f(i as int) == (match cells_fault(
                    self.schema,
                    q[i as int].id,
                    q[i as int].cells,
                ) {
                    Some(e) => Some(e),
                    None => props_fault(self.props_limit, q[i as int].id, q[i as int].props),
                }));
            }
            if let Some(e) = self.check_cells(p.id, p.cells) {
                return Some(e);
            }
            if let Some(e) = self.check_props(p.id, p.props) {
                return Some(e);
            }
            i = i + 1;
        }
        let mut i: usize = 0;
        while i < len
            invariant
                i <= len,
                len == patches@.len(),
                q == patches_of(patches@),
                names == texts(self.config.text@),
                f == (|i: int|
                    match cells_fault(self.schema, q[i].id, q[i].cells) {
                        Some(e) => Some(e),
                        None => props_fault(self.props_limit, q[i].id, q[i].props),
                    }),
                g == (|i: int| reading_fault(names, q[i].id, q[i].props)),
                first_fault(0, len as int, f) is None,
                first_fault(0, len as int, g) == first_fault(i as int, len as int, g),
            decreases len - i,
        {
            let p = &patches[i];
            proof {
                assert(q[i as int] == p.told());
                assert(g(i as int) == reading_fault(names, q[i as int].id, q[i as int].props));
            }
            if let Err(e) = self.read_text(p.id, p.props) {
                return Some(e);
            }
            i = i + 1;
        }
        None
    }

    /// Apply metadata-only updates: filter values and properties, no position.
    ///
    /// The point of this is external state. "Is this vehicle flagged in the billing system"
    /// changes on its own schedule and the thing that knows it changed usually does not know
    /// where the vehicle is.
    pub fn patch(&mut self, patches: &[Patch]) -> (r: Result<PatchOutcome, String>)
        requires
            old(self).sound(),
            old(self).room_for(patches@.len() as int),
            forall|i: int|
                0 <= i < patches@.len() ==> well_placed(
                    None,
                    (#[trigger] patches@[i]).told().cells,
                ),
        ensures
            old(self).retouches(*final(self), patches_of(patches@), r),
    {
        let ghost q = patches_of(patches@);
        let ghost o = *self;
        let ghost names = texts(self.config.text@);
        let ghost f = |i: int|
            match cells_fault(o.schema, q[i].id, q[i].cells) {
                Some(e) => Some(e),
                None => props_fault(o.props_limit, q[i].id, q[i].props),
            };
        let ghost g = |i: int| reading_fault(names, q[i].id, q[i].props);
        let len = patches.len();
        let mut i: usize = 0;
        while i < len
            invariant
                i <= len,
                len == patches@.len(),
                *self == o,
                q == patches_of(patches@),
                f == (|i: int|
                    match cells_fault(o.schema, q[i].id, q[i].cells) {
                        Some(e) => Some(e),
                        None => props_fault(o.props_limit, q[i].id, q[i].props),
                    }),
                first_fault(0, len as int, f) == first_fault(i as int, len as int, f),
                forall|j: int|
                    0 <= j < i ==> ((#[trigger] patches@[j]).cells matches Some(c) ==> c@.len()
                        <= o.schema.max_cells_per_device && forall|m: int|
                        0 <= m < c@.len() ==> #[trigger] c@[m] < o.schema.cells),
            decreases len - i,
        {
            let p = &patches[i];
            proof {
                assert(q[i as int] == p.told());
                assert(f(i as int) == (match cells_fault(
                    o.schema,
                    q[i as int].id,
                    q[i as int].cells,
                ) {
                    Some(e) => Some(e),
                    None => props_fault(o.props_limit, q[i as int].id, q[i as int].props),
                }));
            }
            match self.check_cells(p.id, p.cells) {
                Some(e) => {
                    return Err(e);
                },
                None => {},
            }
            match self.check_props(p.id, p.props) {
                Some(e) => {
                    return Err(e);
                },
                None => {},
            }
            i = i + 1;
        }
        let mut read: Vec<Option<Vec<Option<String>>>> = Vec::new();
        i = 0;
        while i < len
            invariant
                i <= len,
                len == patches@.len(),
                *self == o,
                q == patches_of(patches@),
                f == (|i: int|
                    match cells_fault(o.schema, q[i].id, q[i].cells) {
                        Some(e) => Some(e),
                        None => props_fault(o.props_limit, q[i].id, q[i].props),
                    }),
                first_fault(0, len as int, f) is None,
                names == texts(o.config.text@),
                g == (|i: int| reading_fault(names, q[i].id, q[i].props)),
                first_fault(0, len as int, g) == first_fault(i as int, len as int, g),
                read@.len() == i,
                forall|j: int|
                    0 <= j < i ==> super::ingest::text_fits(#[trigger] read@[j], q[j], names),
            decreases len - i,
        {
            let p = &patches[i];
            proof {
                assert(q[i as int] == p.told());
                assert(g(i as int) == reading_fault(names, q[i as int].id, q[i as int].props));
            }
            match self.read_text(p.id, p.props) {
                Ok(v) => {
                    read.push(v);
                },
                Err(e) => {
                    return Err(e);
                },
            }
            i = i + 1;
        }
        let mut turned: Vec<Option<Vec<Option<String>>>> = Vec::new();
        while read.len() > 0
            invariant
                read@.len() + turned@.len() == len,
                len == q.len(),
                forall|j: int|
                    0 <= j < read@.len() ==> super::ingest::text_fits(
                        #[trigger] read@[j],
                        q[j],
                        names,
                    ),
                forall|j: int|
                    0 <= j < turned@.len() ==> super::ingest::text_fits(
                        #[trigger] turned@[j],
                        q[len - 1 - j],
                        names,
                    ),
            decreases read@.len(),
        {
            match read.pop() {
                Some(v) => {
                    turned.push(v);
                },
                None => {},
            }
        }
        let out = self.patch_all(patches, turned);
        let ghost mid = *self;
        self.patched = self.patched.wrapping_add(out.applied as u64);
        self.stale_reports = self.stale_reports.wrapping_add(out.stale as u64);
        proof {
            assert(self.numbered());
            assert(self.sound());
            assert forall|m: int| 0 <= m <= u64::MAX && #[trigger] o.agrees_on(m) implies self.agrees_on(
                m,
            ) by {
                assert(mid.agrees_on(m));
            }
        }
        Ok(out)
    }

    #[verifier::rlimit(50)]
    fn patch_all(&mut self, patches: &[Patch], turned: Vec<Option<Vec<Option<String>>>>) -> (out:
        PatchOutcome)
        requires
            old(self).sound(),
            old(self).room_for(patches@.len() as int),
            turned@.len() == patches@.len(),
            forall|j: int|
                0 <= j < turned@.len() ==> super::ingest::text_fits(
                    #[trigger] turned@[j],
                    patches@[patches@.len() - 1 - j].told(),
                    texts(old(self).config.text@),
                ),
            forall|j: int|
                0 <= j < patches@.len() ==> ((#[trigger] patches@[j]).cells matches Some(c) ==> c@.len()
                    <= old(self).schema.max_cells_per_device && forall|m: int|
                    0 <= m < c@.len() ==> #[trigger] c@[m] < old(self).schema.cells),
            forall|j: int|
                0 <= j < patches@.len() ==> well_placed(
                    None,
                    (#[trigger] patches@[j]).told().cells,
                ),
        ensures
            ({
                let q = patches_of(patches@);
                let k = q.len() as int;
                let names = texts(old(self).config.text@);
                &&& final(self).sound()
                &&& final(self).same_setup(*old(self))
                &&& final(self).tallies() == old(self).tallies()
                &&& final(self).recs() == patched_all(old(self).recs(), q, names, k)
                &&& (out.applied as int, out.stale as int, texts(out.unknown@)) == outcome(
                    old(self).recs(),
                    q,
                    names,
                    k,
                )
                &&& old(self).agrees() ==> final(self).agrees()
                &&& forall|m: int|
                    0 <= m <= u64::MAX && #[trigger] old(self).agrees_on(m)
                        ==> final(self).agrees_on(m)
                &&& becomes(
                    old(self).index.state(),
                    final(self).index.state(),
                    by_patches(old(self).recs(), q, names),
                    k,
                )
            }),
    {
        let mut turned = turned;
        let ghost q = patches_of(patches@);
        let ghost o = *self;
        let ghost names = texts(self.config.text@);
        let len = patches.len();
        let mut out = PatchOutcome { applied: 0, stale: 0, unknown: Vec::new() };
        let mut i: usize = 0;
        proof {
            assert(texts(out.unknown@) =~= seq![]);
            let a = self.index.state();
            lemma_becomes(a, a, a, by_patches(o.recs(), q, names), 0);
        }
        while i < len
            invariant
                i <= len,
                len == patches@.len(),
                q == patches_of(patches@),
                names == texts(o.config.text@),
                self.sound(),
                self.same_setup(o),
                self.tallies() == o.tallies(),
                self.recs() == patched_all(o.recs(), q, names, i as int),
                (out.applied as int, out.stale as int, texts(out.unknown@)) == outcome(
                    o.recs(),
                    q,
                    names,
                    i as int,
                ),
                out.applied + out.stale <= i,
                self.room_for(len - i),
                o.agrees() ==> self.agrees(),
                forall|m: int|
                    0 <= m <= u64::MAX && #[trigger] o.agrees_on(m) ==> self.agrees_on(m),
                becomes(
                    o.index.state(),
                    self.index.state(),
                    by_patches(o.recs(), q, names),
                    i as int,
                ),
                turned@.len() == len - i,
                forall|j: int|
                    0 <= j < turned@.len() ==> super::ingest::text_fits(
                        #[trigger] turned@[j],
                        q[len - 1 - j],
                        names,
                    ),
                forall|j: int|
                    0 <= j < len ==> ((#[trigger] patches@[j]).cells matches Some(c) ==> c@.len()
                        <= o.schema.max_cells_per_device && forall|m: int|
                        0 <= m < c@.len() ==> #[trigger] c@[m] < o.schema.cells),
                forall|j: int|
                    0 <= j < len ==> well_placed(None, (#[trigger] patches@[j]).told().cells),
            decreases len - i,
        {
            let p = &patches[i];
            proof {
                assert(super::ingest::text_fits(turned@[len - 1 - i], q[i as int], names));
                assert(q[i as int] == p.told());
                assert(well_placed(None, patches@[i as int].told().cells));
                self.lemma_room(1, len - i);
            }
            let text = match turned.pop() {
                Some(v) => v,
                None => None,
            };
            let ghost before = *self;
            let ghost unknown = texts(out.unknown@);
            match self.take_patch(p, text) {
                Fate::Applied => {
                    out.applied = out.applied + 1;
                },
                Fate::Stale => {
                    out.stale = out.stale + 1;
                },
                Fate::Unknown => {
                    out.unknown.push(p.id.to_owned());
                    proof {
                        assert(texts(out.unknown@) =~= unknown.push(p.id@));
                    }
                },
            }
            proof {
                self.lemma_room_left(before, len - i);
                let (a, m, b) = (o.index.state(), before.index.state(), self.index.state());
                lemma_becomes(a, m, b, by_patches(o.recs(), q, names), i as int);
            }
            i = i + 1;
        }
        out
    }
}

/// What is left of the records and the index, `n` dropped.
pub open spec fn forgotten(recs: Seq<Record>, n: int) -> Seq<Record> {
    recs.update(n, blank(recs[n].id, recs[n].text.len() as int))
}

/// A device that the index holds and that was silent for too long.
pub open spec fn overdue(r: Record, held: bool, limit: int) -> bool {
    r.live() && r.seen < limit && held
}

/// The records, the overdue among the first `k` devices of `ns` dropped; and how many were.
pub open spec fn swept(
    recs: Seq<Record>,
    m: Map<u64, crate::register::Spot>,
    ns: Seq<u64>,
    limit: int,
    k: int,
) -> (Seq<Record>, Map<u64, crate::register::Spot>, int)
    decreases k,
{
    if k <= 0 {
        (recs, m, 0)
    } else {
        let (r, h, c) = swept(recs, m, ns, limit, k - 1);
        let n = ns[k - 1];
        if overdue(r[n as int], h.contains_key(n), limit) {
            (forgotten(r, n as int), h.remove(n), c + 1)
        } else {
            (r, h, c)
        }
    }
}

/// What the index makes of each device of `ns`: it is taken out.
pub open spec fn by_dropping(ns: Seq<u64>) -> spec_fn(int, State, State) -> bool {
    |i: int, a: State, b: State| takes_out(a, b, ns[i])
}

/// What the index makes of each device of `ns`: an overdue one is taken out.
pub open spec fn by_sweeping(
    recs: Seq<Record>,
    m: Map<u64, crate::register::Spot>,
    ns: Seq<u64>,
    limit: int,
) -> spec_fn(int, State, State) -> bool {
    |i: int, a: State, b: State|
        {
            let (r, h, _) = swept(recs, m, ns, limit, i);
            if overdue(r[ns[i] as int], h.contains_key(ns[i]), limit) {
                takes_out(a, b, ns[i])
            } else {
                b == a
            }
        }
}

impl Collection {
    /// Forget a device that the index holds, but for its number.
    fn forget(&mut self, n: u64)
        requires
            old(self).sound(),
            n < old(self).devices.len(),
            old(self).index.net().register().contains_key(n),
        ensures
            final(self).sound(),
            final(self).same_setup(*old(self)),
            final(self).tallies() == old(self).tallies(),
            final(self).recs() == forgotten(old(self).recs(), n as int),
            final(self).index.net().register() == old(self).index.net().register().remove(n),
            final(self).index.slots() == old(self).index.slots(),
            final(self).agrees_on(n as int),
            takes_out(old(self).index.state(), final(self).index.state(), n),
            old(self).agrees() ==> final(self).agrees(),
            forall|m: int|
                0 <= m <= u64::MAX && #[trigger] old(self).agrees_on(m) ==> final(self).agrees_on(
                    m,
                ),
    {
        let ghost o = *self;
        let k = n as usize;
        let _ = drop_point(&mut self.index, n);
        let fields = self.config.text.len();
        let id = self.devices[k].id.clone();
        let d = Device {
            id,
            last_seen: NEVER,
            last_update: None,
            position: None,
            cells: Vec::new(),
            props: None,
            text: super::ingest::no_fields(fields),
        };
        self.devices.set(k, d);
        proof {
            assert(good_record(o.devices[n as int].record(), o.opts(), o.fields()));
            let rec = self.devices[n as int].record();
            assert(rec.cells =~= seq![]);
            assert(rec.text =~= blank(rec.id, fields as int).text);
            assert(rec == blank(o.devices[n as int].id@, fields as int));
            super::ingest::lemma_update(o.devices@, n as int, self.devices[n as int]);
            assert(o.recs()[n as int] == o.devices[n as int].record());
            assert(self.recs() =~= o.recs().update(n as int, rec));
            let (a, b) = (o.index.net().register(), self.index.net().register());
            assert(b.remove(n) =~= a.remove(n));
            self.lemma_written(o, n as int);
            assert(self.recs()[n as int] == rec);
            assert(self.agrees_on(n as int));
        }
    }

    /// Remove a device. Returns whether it was there.
    pub fn remove(&mut self, id: &str) -> (gone: bool)
        requires
            old(self).sound(),
        ensures
            final(self).sound(),
            final(self).same_setup(*old(self)),
            final(self).tallies() == old(self).tallies(),
            gone == (number_of(old(self).recs(), id@) < old(self).devices.len()
                && old(self).index.net().register().contains_key(
                number_of(old(self).recs(), id@) as u64,
            )),
            gone ==> final(self).recs() == forgotten(
                old(self).recs(),
                number_of(old(self).recs(), id@),
            ) && final(self).index.net().register() == old(self).index.net().register().remove(
                number_of(old(self).recs(), id@) as u64,
            ) && takes_out(
                old(self).index.state(),
                final(self).index.state(),
                number_of(old(self).recs(), id@) as u64,
            ),
            !gone ==> *final(self) == *old(self),
            old(self).agrees() ==> final(self).agrees(),
            old(self).agrees() ==> gone == (number_of(old(self).recs(), id@) < old(
                self,
            ).devices.len() && old(self).recs()[number_of(old(self).recs(), id@)].live()),
    {
        proof {
            self.lemma_numbered(id@);
        }
        match self.numbers.get(id) {
            None => false,
            Some(n) => {
                let n = *n;
                proof {
                    assert(self.devices[n as int].id@ == id@);
                    if self.agrees() {
                        assert(self.index.net().register().contains_key(n) <==> wanted(
                            self.recs(),
                        ).contains_key(n));
                    }
                }
                if self.index.contains(n) {
                    self.forget(n);
                    true
                } else {
                    false
                }
            },
        }
    }

    /// The devices that have not reported within the TTL, and the time that they have not
    /// reported since.
    pub fn victims(&self, now: u64) -> (r: (Vec<u64>, u64))
        requires
            self.sound(),
        ensures
            r.1 == cutoff(now, self.ttl),
            forall|j: int|
                0 <= j < r.0@.len() ==> (#[trigger] r.0@[j]) < self.devices.len()
                    && self.recs()[r.0@[j] as int].live() && self.recs()[r.0@[j] as int].seen < r.1,
            forall|n: int|
                0 <= n < self.devices.len() && (#[trigger] self.recs()[n]).live() && self.recs()[n].seen
                    < r.1 ==> r.0@.contains(n as u64),
            forall|i: int, j: int| 0 <= i < j < r.0@.len() ==> #[trigger] r.0@[i] < #[trigger] r.0@[j],
    {
        let limit = cutoff_at(now, self.ttl);
        let mut out: Vec<u64> = Vec::new();
        let mut n: usize = 0;
        while n < self.devices.len()
            invariant
                n <= self.devices.len(),
                forall|j: int|
                    0 <= j < out@.len() ==> (#[trigger] out@[j]) < n
                        && self.recs()[out@[j] as int].live() && self.recs()[out@[j] as int].seen
                        < limit,
                forall|m: int|
                    0 <= m < n && (#[trigger] self.recs()[m]).live() && self.recs()[m].seen < limit
                        ==> out@.contains(m as u64),
                forall|i: int, j: int| 0 <= i < j < out@.len() ==> #[trigger] out@[i] < #[trigger] out@[j],
            decreases self.devices.len() - n,
        {
            let t = self.devices[n].last_seen;
            let ghost before = out@;
            proof {
                assert(self.recs()[n as int].seen == t);
            }
            if t != NEVER && t < limit {
                out.push(n as u64);
            }
            proof {
                assert forall|m: int|
                    0 <= m < n + 1 && (#[trigger] self.recs()[m]).live() && self.recs()[m].seen
                        < limit implies out@.contains(m as u64) by {
                    if m < n {
                        let j = choose|j: int| 0 <= j < before.len() && before[j] == m as u64;
                        assert(out@[j] == m as u64);
                    } else {
                        assert(out@[before.len() as int] == m as u64);
                    }
                }
            }
            n = n + 1;
        }
        (out, limit)
    }

    /// Drop those of some devices that are still overdue: a device may have reported since it was
    /// found. Returns how many.
    pub fn expire(&mut self, ns: &[u64], limit: u64) -> (dropped: usize)
        requires
            old(self).sound(),
            forall|j: int| 0 <= j < ns@.len() ==> (#[trigger] ns@[j]) < old(self).devices.len(),
        ensures
            final(self).sound(),
            final(self).same_setup(*old(self)),
            (final(self).recs(), final(self).index.net().register(), dropped as int) == swept(
                old(self).recs(),
                old(self).index.net().register(),
                ns@,
                limit as int,
                ns@.len() as int,
            ),
            final(self).tallies() == (Tallies {
                expired: old(self).expired.wrapping_add(dropped as u64),
                ..old(self).tallies()
            }),
            old(self).agrees() ==> final(self).agrees(),
            becomes(
                old(self).index.state(),
                final(self).index.state(),
                by_sweeping(
                    old(self).recs(),
                    old(self).index.net().register(),
                    ns@,
                    limit as int,
                ),
                ns@.len() as int,
            ),
    {
        let ghost o = *self;
        let ghost step = by_sweeping(o.recs(), o.index.net().register(), ns@, limit as int);
        let mut dropped: usize = 0;
        let mut i: usize = 0;
        proof {
            let a = self.index.state();
            lemma_becomes(a, a, a, step, 0);
        }
        while i < ns.len()
            invariant
                i <= ns@.len(),
                dropped <= i,
                self.sound(),
                self.same_setup(o),
                self.tallies() == o.tallies(),
                self.devices.len() == o.devices.len(),
                (self.recs(), self.index.net().register(), dropped as int) == swept(
                    o.recs(),
                    o.index.net().register(),
                    ns@,
                    limit as int,
                    i as int,
                ),
                o.agrees() ==> self.agrees(),
                forall|j: int| 0 <= j < ns@.len() ==> (#[trigger] ns@[j]) < o.devices.len(),
                step == by_sweeping(o.recs(), o.index.net().register(), ns@, limit as int),
                becomes(o.index.state(), self.index.state(), step, i as int),
            decreases ns@.len() - i,
        {
            let ghost before = self.index.state();
            let n = ns[i];
            let t = self.devices[n as usize].last_seen;
            proof {
                assert(self.recs()[n as int].seen == t);
                let net = self.index.net();
                assert(net.register().contains_key(n) == net.knows(n));
            }
            if t != NEVER && t < limit && self.index.contains(n) {
                self.forget(n);
                dropped = dropped + 1;
                proof {
                    assert(self.recs().len() == self.devices.len());
                }
            }
            proof {
                lemma_becomes(o.index.state(), before, self.index.state(), step, i as int);
            }
            i = i + 1;
        }
        let ghost mid = *self;
        self.expired = self.expired.wrapping_add(dropped as u64);
        proof {
            assert(self.numbered());
            assert(self.sound());
        }
        dropped
    }

    /// Device `n` has not reported within the TTL.
    pub open spec fn silent(&self, n: int, now: u64) -> bool {
        self.recs()[n].live() && self.recs()[n].seen < cutoff(now, self.ttl)
    }

    /// What becomes of the collection when silent devices are dropped: of them nothing stays but
    /// the id, and nothing else changes.
    pub open spec fn sheds(&self, n: Collection, now: u64, dropped: usize) -> bool {
        &&& n.wf()
        &&& n.same_setup(*self)
        &&& n.devices.len() == self.devices.len()
        &&& forall|i: int|
            0 <= i < self.devices.len() ==> #[trigger] n.recs()[i] == (if self.silent(i, now) {
                blank(self.recs()[i].id, self.fields())
            } else {
                self.recs()[i]
            })
        &&& dropped == crate::sums::total(
            self.devices.len() as int,
            |i: int|
                if self.silent(i, now) {
                    1int
                } else {
                    0
                },
        )
        &&& n.tallies() == (Tallies {
            expired: self.expired.wrapping_add(dropped as u64),
            ..self.tallies()
        })
        &&& exists|ns: Seq<u64>| #[trigger]
            self.all_silent(ns, now) && becomes(
                self.index.state(),
                n.index.state(),
                by_dropping(ns),
                ns.len() as int,
            )
    }

    /// The silent devices, by number, in order.
    pub open spec fn all_silent(&self, ns: Seq<u64>, now: u64) -> bool {
        &&& forall|i: int, j: int| 0 <= i < j < ns.len() ==> #[trigger] ns[i] < #[trigger] ns[j]
        &&& forall|i: int| 0 <= i < ns.len() ==> #[trigger] ns[i] < self.devices.len()
        &&& forall|i: int|
            0 <= i < self.devices.len() ==> (#[trigger] self.silent(i, now) <==> ns.contains(
                i as u64,
            ))
    }

    /// Drop devices that have not reported within the TTL by now. Returns how many.
    pub fn sweep(&mut self) -> (dropped: usize)
        requires
            old(self).wf(),
        ensures
            exists|now: u64| #[trigger] old(self).sheds(*final(self), now, dropped),
    {
        self.sweep_at(now_ms())
    }

    /// Drop devices that have not reported within the TTL by a time. Returns how many.
    pub fn sweep_at(&mut self, now: u64) -> (dropped: usize)
        requires
            old(self).wf(),
        ensures
            old(self).sheds(*final(self), now, dropped),
    {
        let ghost o = *self;
        let (ns, limit) = self.victims(now);
        let dropped = self.expire(ns.as_slice(), limit);
        proof {
            let m = o.index.net().register();
            assert forall|j: int| 0 <= j < ns@.len() implies overdue(
                o.recs()[(#[trigger] ns@[j]) as int],
                m.contains_key(ns@[j]),
                limit as int,
            ) by {
                assert(wanted(o.recs()).contains_key(ns@[j]));
            }
            lemma_swept(o.recs(), m, ns@, limit as int, ns@.len() as int);
            assert(ns@.take(ns@.len() as int) =~= ns@);
            let f = |n: int|
                if o.recs()[n].live() && o.recs()[n].seen < limit {
                    1int
                } else {
                    0
                };
            assert forall|n: int| 0 <= n < o.recs().len() implies (#[trigger] f(n) == 1 <==> ns@.contains(
                n as u64,
            )) by {
                if ns@.contains(n as u64) {
                    let j = choose|j: int| 0 <= j < ns@.len() && ns@[j] == n as u64;
                    assert(o.recs()[ns@[j] as int].live());
                }
                assert(o.recs()[n].live() && o.recs()[n].seen < limit ==> ns@.contains(n as u64));
            }
            lemma_count(ns@, f, o.recs().len() as int);
            let g = |i: int|
                if o.silent(i, now) {
                    1int
                } else {
                    0
                };
            crate::sums::lemma_total_ext(o.devices.len() as int, f, g);
            assert forall|n: int| 0 <= n < o.devices.len() implies #[trigger] self.recs()[n] == (
            if o.recs()[n].live() && o.recs()[n].seen < cutoff(now, o.ttl) {
                blank(o.recs()[n].id, o.fields())
            } else {
                o.recs()[n]
            }) by {
                assert(f(n) == 1 <==> ns@.contains(n as u64));
                assert(good_record(o.devices[n].record(), o.opts(), o.fields()));
                assert(o.recs()[n] == o.devices[n].record());
            }
            lemma_dropping(o.recs(), m, ns@, limit as int, o.index.state(), self.index.state());
            assert forall|i: int| 0 <= i < o.devices.len() implies (#[trigger] o.silent(i, now)
                <==> ns@.contains(i as u64)) by {
                assert(f(i) == 1 <==> ns@.contains(i as u64));
            }
            assert(o.all_silent(ns@, now));
        }
        dropped
    }
}

/// Of overdue devices the index takes out each.
proof fn lemma_dropping(
    recs: Seq<Record>,
    m: Map<u64, crate::register::Spot>,
    ns: Seq<u64>,
    limit: int,
    a: State,
    b: State,
)
    requires
        recs.len() <= u64::MAX,
        forall|j: int| 0 <= j < ns.len() ==> (#[trigger] ns[j]) < recs.len(),
        forall|i: int, j: int| 0 <= i < j < ns.len() ==> #[trigger] ns[i] < #[trigger] ns[j],
        forall|j: int|
            0 <= j < ns.len() ==> overdue(
                recs[(#[trigger] ns[j]) as int],
                m.contains_key(ns[j]),
                limit,
            ),
        becomes(a, b, by_sweeping(recs, m, ns, limit), ns.len() as int),
    ensures
        becomes(a, b, by_dropping(ns), ns.len() as int),
{
    let k = ns.len() as int;
    let step = by_sweeping(recs, m, ns, limit);
    let p = choose|p: Seq<State>| #[trigger] path(p, step, k) && p[0] == a && p[k] == b;
    assert forall|i: int| 0 <= i < k implies by_dropping(ns)(i, #[trigger] p[i], p[i + 1]) by {
        lemma_swept(recs, m, ns, limit, i);
        let n = ns[i];
        if ns.take(i).contains(n) {
            let j = choose|j: int| 0 <= j < i && ns.take(i)[j] == n;
            assert(ns[j] < ns[i]);
        }
        assert(swept(recs, m, ns, limit, i).0[n as int] == recs[n as int]);
        assert(overdue(recs[n as int], m.contains_key(n), limit));
        assert(step(i, p[i], p[i + 1]));
    }
    assert(path(p, by_dropping(ns), k));
}

/// Dropping overdue devices one after the other drops them all.
proof fn lemma_swept(
    recs: Seq<Record>,
    m: Map<u64, crate::register::Spot>,
    ns: Seq<u64>,
    limit: int,
    k: int,
)
    requires
        0 <= k <= ns.len(),
        recs.len() <= u64::MAX,
        forall|j: int| 0 <= j < ns.len() ==> (#[trigger] ns[j]) < recs.len(),
        forall|i: int, j: int| 0 <= i < j < ns.len() ==> #[trigger] ns[i] < #[trigger] ns[j],
        forall|j: int|
            0 <= j < ns.len() ==> overdue(
                recs[(#[trigger] ns[j]) as int],
                m.contains_key(ns[j]),
                limit,
            ),
    ensures
        swept(recs, m, ns, limit, k).2 == k,
        swept(recs, m, ns, limit, k).0.len() == recs.len(),
        forall|n: int|
            0 <= n < recs.len() ==> #[trigger] swept(recs, m, ns, limit, k).0[n] == (if ns.take(
                k,
            ).contains(n as u64) {
                blank(recs[n].id, recs[n].text.len() as int)
            } else {
                recs[n]
            }),
        forall|j: int|
            k <= j < ns.len() ==> swept(recs, m, ns, limit, k).1.contains_key(#[trigger] ns[j]),
    decreases k,
{
    if k > 0 {
        lemma_swept(recs, m, ns, limit, k - 1);
        let (r, h, c) = swept(recs, m, ns, limit, k - 1);
        let n = ns[k - 1];
        let (p, q) = (ns.take(k - 1), ns.take(k));
        assert(q =~= p.push(n));
        assert(!p.contains(n)) by {
            if p.contains(n) {
                let j = choose|j: int| 0 <= j < p.len() && p[j] == n;
                assert(ns[j] < ns[k - 1]);
            }
        }
        assert(r[n as int] == recs[n as int]);
        assert(overdue(recs[n as int], m.contains_key(n), limit));
        assert(h.contains_key(n));
        assert forall|i: int| 0 <= i < recs.len() implies #[trigger] swept(recs, m, ns, limit, k).0[i]
            == (if q.contains(i as u64) {
            blank(recs[i].id, recs[i].text.len() as int)
        } else {
            recs[i]
        }) by {
            if i == n {
                assert(q[k - 1] == n);
                assert(q.contains(n));
            } else {
                assert(q.contains(i as u64) <==> p.contains(i as u64)) by {
                    if p.contains(i as u64) {
                        let j = choose|j: int| 0 <= j < p.len() && p[j] == i as u64;
                        assert(q[j] == i as u64);
                    }
                    if q.contains(i as u64) {
                        let j = choose|j: int| 0 <= j < q.len() && q[j] == i as u64;
                        assert(j < k - 1);
                        assert(p[j] == i as u64);
                    }
                }
                assert(r[i] == swept(recs, m, ns, limit, k).0[i]);
            }
        }
    } else {
        assert(ns.take(0) =~= seq![]);
    }
}

/// An increasing list is as long as what it picks out.
proof fn lemma_count(ns: Seq<u64>, f: spec_fn(int) -> int, n: int)
    requires
        0 <= n <= u64::MAX,
        forall|i: int, j: int| 0 <= i < j < ns.len() ==> #[trigger] ns[i] < #[trigger] ns[j],
        forall|j: int| 0 <= j < ns.len() ==> (#[trigger] ns[j]) < n,
        forall|i: int| 0 <= i < n ==> (#[trigger] f(i) == 1 <==> ns.contains(i as u64)),
        forall|i: int| 0 <= i < n ==> #[trigger] f(i) == 0 || f(i) == 1,
    ensures
        crate::sums::total(n, f) == ns.len(),
    decreases n,
{
    if n > 0 {
        assert(f(n - 1) == 1 <==> ns.contains((n - 1) as u64));
        if f(n - 1) == 1 {
            let j = choose|j: int| 0 <= j < ns.len() && ns[j] == (n - 1) as u64;
            assert(j == ns.len() - 1) by {
                if j < ns.len() - 1 {
                    assert(ns[j] < ns[ns.len() - 1]);
                }
            }
            let r = ns.drop_last();
            assert forall|i: int| 0 <= i < n - 1 implies (#[trigger] f(i) == 1 <==> r.contains(
                i as u64,
            )) by {
                if ns.contains(i as u64) {
                    let k = choose|k: int| 0 <= k < ns.len() && ns[k] == i as u64;
                    assert(k != j);
                    assert(r[k] == i as u64);
                }
                if r.contains(i as u64) {
                    let k = choose|k: int| 0 <= k < r.len() && r[k] == i as u64;
                    assert(ns[k] == i as u64);
                }
            }
            assert forall|k: int| 0 <= k < r.len() implies (#[trigger] r[k]) < n - 1 by {
                assert(ns[k] < ns[j]);
            }
            lemma_count(r, f, n - 1);
        } else {
            assert(f(n - 1) == 0 || f(n - 1) == 1);
            assert forall|k: int| 0 <= k < ns.len() implies (#[trigger] ns[k]) < n - 1 by {
                if ns[k] == (n - 1) as u64 {
                    assert(ns.contains((n - 1) as u64));
                }
            }
            lemma_count(ns, f, n - 1);
        }
    } else {
        if ns.len() > 0 {
            assert(ns[0] < n);
        }
    }
}

} // verus!
