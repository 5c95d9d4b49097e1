//! Devices as they are kept on disk.
use super::ingest::{copy_fields, lemma_update, with_id};
use super::points::{becomes, lemma_becomes, put_point, puts};
use super::upkeep::{cutoff, plain_cells};
use super::{good_record, maybe, number_of, Collection, Device, Record, Tallies, NEVER};
use crate::clock::now_ms;
use crate::config::Config;
use crate::geometry::{in_world, PREC_I};
use crate::index::{blank_state, cells_ok, State};
use crate::index::update::copy_cells;
use crate::json::{fields_of, is_json, json_members, json_valid, members, pick_fields};
use crate::schema::{refilled, Interner};
use crate::snapshot::DeviceRecord;
use crate::text::texts;
use vstd::prelude::*;

verus! {

/// One live device, as recorded.
#[derive(Debug, Clone)]
pub struct DeviceState {
    pub id: String,
    pub x: i32,
    pub y: i32,
    pub cells: Vec<u32>,
    pub last_seen_ms: u64,
    pub updated_at_ms: Option<u64>,
    pub props: Option<String>,
}

/// What a [`DeviceState`] says.
pub struct Stored {
    pub id: Seq<char>,
    pub x: i32,
    pub y: i32,
    pub cells: Seq<u32>,
    pub seen: u64,
    pub version: Option<u64>,
    pub props: Option<Seq<char>>,
}

/// What is kept of a device beside its snapshot record.
#[derive(Debug, Clone)]
pub struct Extra {
    pub cells: Vec<u32>,
    pub updated_at_ms: Option<u64>,
    pub props: Option<String>,
}

/// The device of a record and of what is kept beside it.
pub open spec fn joined(r: DeviceRecord, e: Extra) -> Stored {
    Stored {
        id: r.id@,
        x: r.x,
        y: r.y,
        cells: e.cells@,
        seen: r.last_seen_ms,
        version: e.updated_at_ms,
        props: maybe(e.props),
    }
}

/// The cells of a device, none of them twice.
fn all_different(v: &Vec<u32>) -> (r: bool)
    ensures
        r == v@.no_duplicates(),
{
    let mut i: usize = 0;
    while i < v.len()
        invariant
            i <= v.len(),
            forall|a: int, b: int| 0 <= a < b < i ==> v@[a] != v@[b],
        decreases v.len() - i,
    {
        let mut j: usize = 0;
        while j < i
            invariant
                j <= i < v.len(),
                forall|a: int| 0 <= a < j ==> v@[a] != v@[i as int],
            decreases i - j,
        {
            if v[j] == v[i] {
                return false;
            }
            j = j + 1;
        }
        i = i + 1;
    }
    true
}

impl DeviceState {
    /// Whether a device can be restored: it lies in the world, was seen, and is in no cell twice.
    pub fn can_restore(&self) -> (r: bool)
        ensures
            r == restorable(self.stored()),
    {
        0 <= self.x && self.x as i64 <= PREC_I && 0 <= self.y && self.y as i64 <= PREC_I
            && self.last_seen_ms != NEVER && all_different(&self.cells)
    }

    /// The device as a snapshot record, and what has no room in one. Together they are the
    /// device.
    pub fn split(self) -> (r: (DeviceRecord, Extra))
        ensures
            joined(r.0, r.1) == self.stored(),
            r.0.cat == (if self.cells.len() > 0 {
                self.cells[0]
            } else {
                0
            }),
    {
        (
            self.to_record(),
            Extra {
                cells: self.cells,
                updated_at_ms: self.updated_at_ms,
                props: self.props,
            },
        )
    }

    /// The device of a snapshot record and of what was kept beside it.
    pub fn join(r: DeviceRecord, e: Extra) -> (s: DeviceState)
        ensures
            s.stored() == joined(r, e),
    {
        DeviceState {
            id: r.id,
            x: r.x,
            y: r.y,
            cells: e.cells,
            last_seen_ms: r.last_seen_ms,
            updated_at_ms: e.updated_at_ms,
            props: e.props,
        }
    }

    pub open spec fn stored(&self) -> Stored {
        Stored {
            id: self.id@,
            x: self.x,
            y: self.y,
            cells: self.cells@,
            seen: self.last_seen_ms,
            version: self.updated_at_ms,
            props: maybe(self.props),
        }
    }

    /// The device as a snapshot record, which has room for one category.
    pub fn to_record(&self) -> (r: DeviceRecord)
        ensures
            r.id@ == self.id@,
            r.x == self.x,
            r.y == self.y,
            r.cat == (if self.cells.len() > 0 {
                self.cells[0]
            } else {
                0
            }),
            r.last_seen_ms == self.last_seen_ms,
    {
        DeviceRecord {
            id: self.id.clone(),
            x: self.x,
            y: self.y,
            cat: if self.cells.len() > 0 {
                self.cells[0]
            } else {
                0
            },
            last_seen_ms: self.last_seen_ms,
        }
    }

    /// The device of a snapshot record.
    pub fn from_record(r: &DeviceRecord) -> (s: DeviceState)
        ensures
            s.stored() == (Stored {
                id: r.id@,
                x: r.x,
                y: r.y,
                cells: seq![r.cat],
                seen: r.last_seen_ms,
                version: None,
                props: None,
            }),
    {
        let mut cells: Vec<u32> = Vec::new();
        cells.push(r.cat);
        proof {
            assert(cells@ =~= seq![r.cat]);
        }
        DeviceState {
            id: r.id.clone(),
            x: r.x,
            y: r.y,
            cells,
            last_seen_ms: r.last_seen_ms,
            updated_at_ms: None,
            props: None,
        }
    }
}

pub open spec fn stored_all(v: Seq<DeviceState>) -> Seq<Stored> {
    Seq::new(v.len(), |i: int| v[i].stored())
}

/// What is kept of a record.
pub open spec fn kept(r: Record) -> Stored {
    Stored {
        id: r.id,
        x: (r.at->0).0,
        y: (r.at->0).1,
        cells: r.cells,
        seen: r.seen,
        version: r.version,
        props: r.props,
    }
}

/// What is kept of the first `n` records: of the live ones, in order.
pub open spec fn exported(recs: Seq<Record>, n: int) -> Seq<Stored>
    decreases n,
{
    if n <= 0 {
        seq![]
    } else if recs[n - 1].live() {
        exported(recs, n - 1).push(kept(recs[n - 1]))
    } else {
        exported(recs, n - 1)
    }
}

/// The cells among the first `n` that still exist.
pub open spec fn existing(q: Seq<u32>, cells: int, n: int) -> Seq<u32>
    decreases n,
{
    if n <= 0 {
        seq![]
    } else if q[n - 1] < cells {
        existing(q, cells, n - 1).push(q[n - 1])
    } else {
        existing(q, cells, n - 1)
    }
}

/// What restoring goes by.
pub struct Restoring {
    /// Older records are dropped.
    pub limit: int,
    /// How many cells there are, and how many a device may be in.
    pub cells: int,
    pub most: int,
    pub defaults: Seq<u32>,
    pub names: Seq<Seq<char>>,
}

/// The cells a device is restored into: those of its own that still exist, as many as are
/// allowed; the default ones if none is left.
pub open spec fn refiled(q: Seq<u32>, rr: Restoring) -> Seq<u32> {
    let e = existing(q, rr.cells, q.len() as int);
    let k = if e.len() < rr.most {
        e.len() as int
    } else {
        rr.most
    };
    if k == 0 {
        rr.defaults
    } else {
        e.take(k)
    }
}

/// A record, restored over what was there.
pub open spec fn revived(r: Record, t: Stored, rr: Restoring) -> Record {
    Record {
        id: r.id,
        seen: t.seen,
        version: t.version,
        at: Some((t.x, t.y)),
        cells: refiled(t.cells, rr),
        props: match t.props {
            Some(p) => if json_valid(p) {
                Some(p)
            } else {
                None
            },
            None => r.props,
        },
        text: match t.props {
            Some(p) => match json_members(p) {
                Ok(q) => if rr.names.len() > 0 {
                    fields_of(q, rr.names)
                } else {
                    r.text
                },
                Err(_) => r.text,
            },
            None => r.text,
        },
    }
}

/// The records after one more was restored.
pub open spec fn restored_one(recs: Seq<Record>, t: Stored, rr: Restoring) -> Seq<Record> {
    if t.seen < rr.limit {
        recs
    } else {
        let all = with_id(recs, t.id, rr.names.len() as int);
        let n = number_of(recs, t.id);
        all.update(n, revived(all[n], t, rr))
    }
}

pub open spec fn restored_all(q: Seq<Stored>, rr: Restoring, k: int) -> Seq<Record>
    decreases k,
{
    if k <= 0 {
        seq![]
    } else {
        restored_one(restored_all(q, rr, k - 1), q[k - 1], rr)
    }
}

/// What the index makes of each device of a snapshot: one that is not too old is put where it was.
pub open spec fn by_restoring(q: Seq<Stored>, rr: Restoring) -> spec_fn(int, State, State) -> bool {
    |i: int, a: State, b: State| comes_back(a, b, restored_all(q, rr, i), q[i], rr)
}

/// What the index makes of a device of a snapshot.
pub open spec fn comes_back(
    a: State,
    b: State,
    recs: Seq<Record>,
    t: Stored,
    rr: Restoring,
) -> bool {
    if t.seen < rr.limit {
        b == a
    } else {
        puts(
            a,
            b,
            number_of(recs, t.id) as u64,
            t.x as int,
            t.y as int,
            Some(refiled(t.cells, rr)),
        )
    }
}

/// How many of the first `k` are too old.
pub open spec fn skipped_of(q: Seq<Stored>, rr: Restoring, k: int) -> int
    decreases k,
{
    if k <= 0 {
        0
    } else {
        skipped_of(q, rr, k - 1) + (if q[k - 1].seen < rr.limit {
            1int
        } else {
            0
        })
    }
}

/// A device that can be restored: it lies in the world, has reported, and is in no cell twice.
pub open spec fn restorable(t: Stored) -> bool {
    in_world(t.x as int) && in_world(t.y as int) && t.seen != NEVER && t.cells.no_duplicates()
}

proof fn lemma_existing(q: Seq<u32>, cells: int, n: int)
    requires
        0 <= n <= q.len(),
        q.no_duplicates(),
    ensures
        existing(q, cells, n).no_duplicates(),
        forall|i: int|
            0 <= i < existing(q, cells, n).len() ==> (#[trigger] existing(q, cells, n)[i]) < cells
                && q.take(n).contains(existing(q, cells, n)[i]),
        existing(q, cells, n).len() <= n,
    decreases n,
{
    if n > 0 {
        lemma_existing(q, cells, n - 1);
        let e = existing(q, cells, n - 1);
        let (a, b) = (q.take(n - 1), q.take(n));
        assert forall|x: u32| a.contains(x) implies b.contains(x) by {
            let j = choose|j: int| 0 <= j < a.len() && a[j] == x;
            assert(b[j] == x);
        }
        assert(b[n - 1] == q[n - 1]);
        if e.contains(q[n - 1]) {
            let i = choose|i: int| 0 <= i < e.len() && e[i] == q[n - 1];
            assert(a.contains(e[i]));
            let j = choose|j: int| 0 <= j < a.len() && a[j] == e[i];
            assert(q[j] == q[n - 1]);
        }
    }
}

impl Collection {
    pub open spec fn restoring(&self, now: u64) -> Restoring {
        Restoring {
            limit: cutoff(now, self.ttl),
            cells: self.schema.cells as int,
            most: self.schema.max_cells_per_device as int,
            defaults: self.default_cells@,
            names: texts(self.config.text@),
        }
    }

    fn refile(&self, q: &Vec<u32>) -> (r: Vec<u32>)
        requires
            self.sound(),
            q@.no_duplicates(),
        ensures
            r@ == refiled(q@, self.restoring(0)),
            cells_ok(self.opts(), r@),
    {
        let ghost rr = self.restoring(0);
        let mut out: Vec<u32> = Vec::new();
        let mut i: usize = 0;
        while i < q.len()
            invariant
                i <= q.len(),
                out@ == existing(q@, self.schema.cells as int, i as int),
            decreases q.len() - i,
        {
            if (q[i] as usize) < self.schema.cells {
                out.push(q[i]);
            }
            i = i + 1;
        }
        proof {
            lemma_existing(q@, self.schema.cells as int, q@.len() as int);
        }
        let ghost e = out@;
        while out.len() > self.schema.max_cells_per_device
            invariant
                out@.len() <= e.len(),
                out@ == e.take(out@.len() as int),
                out@.len() == e.len() || out@.len() >= self.schema.max_cells_per_device,
            decreases out@.len(),
        {
            let _ = out.pop();
            proof {
                assert(out@ =~= e.take(out@.len() as int));
            }
        }
        if out.len() == 0 {
            return copy_cells(self.default_cells.as_slice());
        }
        proof {
            assert(out@ == refiled(q@, rr));
            assert forall|i: int| 0 <= i < out@.len() implies #[trigger] out@[i]
                < self.opts().cells_in_force() by {
                assert(out@[i] == e[i]);
            }
        }
        out
    }

    /// Every live device, as recorded.
    pub fn export(&self) -> (out: Vec<DeviceState>)
        requires
            self.sound(),
        ensures
            stored_all(out@) == exported(self.recs(), self.devices.len() as int),
    {
        let mut out: Vec<DeviceState> = Vec::new();
        let mut n: usize = 0;
        proof {
            assert(stored_all(out@) =~= exported(self.recs(), 0));
        }
        while n < self.devices.len()
            invariant
                n <= self.devices.len(),
                self.sound(),
                stored_all(out@) == exported(self.recs(), n as int),
            decreases self.devices.len() - n,
        {
            let d = &self.devices[n];
            let ghost before = out@;
            proof {
                assert(good_record(self.devices[n as int].record(), self.opts(), self.fields()));
                assert(self.recs()[n as int] == d.record());
            }
            if d.last_seen != NEVER {
                match d.position {
                    Some((x, y)) => {
                        let props: Option<String> = match &d.props {
                            Some(p) => Some(p.clone()),
                            None => None,
                        };
                        let s = DeviceState {
                            id: d.id.clone(),
                            x,
                            y,
                            cells: copy_cells(d.cells.as_slice()),
                            last_seen_ms: d.last_seen,
                            updated_at_ms: d.last_update,
                            props,
                        };
                        proof {
                            assert(s.stored() == kept(d.record()));
                            assert(stored_all(before.push(s)) =~= stored_all(before).push(
                                s.stored(),
                            ));
                        }
                        out.push(s);
                    },
                    None => {},
                }
            }
            n = n + 1;
        }
        out
    }

    /// Put one device back.
    fn revive(&mut self, t: &DeviceState, Ghost(now): Ghost<u64>)
        requires
            old(self).wf(),
            old(self).room_for(1),
            restorable(t.stored()),
            t.last_seen_ms >= cutoff(now, old(self).ttl),
        ensures
            final(self).wf(),
            final(self).same_setup(*old(self)),
            final(self).tallies() == old(self).tallies(),
            final(self).recs() == restored_one(
                old(self).recs(),
                t.stored(),
                old(self).restoring(now),
            ),
            final(self).devices.len() <= old(self).devices.len() + 1,
            final(self).index.slots() <= old(self).index.slots() + 1,
            comes_back(
                old(self).index.state(),
                final(self).index.state(),
                old(self).recs(),
                t.stored(),
                old(self).restoring(now),
            ),
    {
        let ghost rr = self.restoring(now);
        let cells = self.refile(&t.cells);
        let n = self.intern(t.id.as_str());
        let ghost o = *self;
        let k = n as usize;
        proof {
            assert(good_record(o.devices[n as int].record(), o.opts(), o.fields()));
            assert(o.recs()[n as int] == o.devices[n as int].record());
            assert(rr.cells == self.restoring(0).cells);
            assert(cells@ == refiled(t.cells@, rr));
        }
        put_point(&mut self.index, n, t.x, t.y, cells.as_slice());
        let (props, text): (Option<String>, Vec<Option<String>>) = match &t.props {
            Some(p) => {
                let kept_props: Option<String> = if is_json(p.as_str()) {
                    Some(p.clone())
                } else {
                    None
                };
                let fields = if self.config.text.len() > 0 {
                    match members(p.as_str()) {
                        Ok(v) => pick_fields(&v, &self.config.text),
                        Err(_) => copy_fields(&self.devices[k].text),
                    }
                } else {
                    copy_fields(&self.devices[k].text)
                };
                (kept_props, fields)
            },
            None => {
                let kept_props: Option<String> = match &self.devices[k].props {
                    Some(p) => Some(p.clone()),
                    None => None,
                };
                (kept_props, copy_fields(&self.devices[k].text))
            },
        };
        let id = self.devices[k].id.clone();
        let d = Device {
            id,
            last_seen: t.last_seen_ms,
            last_update: t.updated_at_ms,
            position: Some((t.x, t.y)),
            cells,
            props,
            text,
        };
        self.devices.set(k, d);
        proof {
            let rec = self.devices[n as int].record();
            let want = revived(o.recs()[n as int], t.stored(), rr);
            assert(rec.text =~= want.text);
            assert(rec == want);
            lemma_update(o.devices@, n as int, self.devices[n as int]);
            assert(self.recs() =~= o.recs().update(n as int, rec));
            let (a, b) = (o.index.net().register(), self.index.net().register());
            assert(b.remove(n) =~= a.remove(n));
            self.lemma_written(o, n as int);
            assert(self.recs()[n as int] == rec);
            assert(self.agrees_on(n as int));
        }
    }

    /// A collection rebuilt at a time from a snapshot, with how many records were dropped for
    /// being older than the TTL.
    pub open spec fn rebuilt(
        &self,
        name: Seq<char>,
        config: Config,
        labels: Seq<Vec<String>>,
        q: Seq<Stored>,
        now: u64,
        skipped: int,
    ) -> bool {
        &&& self.wf()
        &&& self.name@ == name
        &&& self.config == config
        &&& self.ttl == config.ttl_seconds
        &&& self.props_limit == config.max_props_bytes
        &&& self.created_ms == now
        &&& self.default_cells@ == plain_cells(self.schema)
        &&& self.tallies() == (Tallies {
            ingested: 0,
            expired: 0,
            stale_reports: 0,
            patched: 0,
            repairs: 0,
        })
        &&& self.last_snapshot_ms == 0
        &&& self.last_snapshot_bytes == 0
        &&& self.snapshot_failures == 0
        &&& self.restored == self.index.net().pts.len()
        &&& self.recs() == restored_all(q, self.restoring(now), q.len() as int)
        &&& skipped == skipped_of(q, self.restoring(now), q.len() as int)
        &&& becomes(
            blank_state(self.opts()),
            self.index.state(),
            by_restoring(q, self.restoring(now)),
            q.len() as int,
        )
        &&& forall|d: int|
            0 <= d < self.schema.dims.len() ==> #[trigger] self.interner@[d] == (if d < labels.len()
                && self.schema.dims[d].capacity is Some {
                refilled(
                    texts(labels[d]@),
                    self.schema.dims[d].width(),
                    labels[d].len() as int,
                )
            } else {
                Map::empty()
            })
    }

    /// Rebuild a collection from a snapshot, now; see [`Collection::restore_at`].
    pub fn restore(
        name: &str,
        config: Config,
        labels: &Vec<Vec<String>>,
        states: &Vec<DeviceState>,
    ) -> (r: (Self, usize))
        requires
            config.acceptable(),
            forall|i: int| 0 <= i < states.len() ==> restorable((#[trigger] states[i]).stored()),
            config.holds(states.len() as int),
        ensures
            exists|now: u64| #[trigger]
                r.0.rebuilt(name@, config, labels@, stored_all(states@), now, r.1 as int),
    {
        Collection::restore_at(name, config, labels, states, now_ms())
    }

    /// Rebuild a collection from a snapshot.
    ///
    /// Inserts the stored fixed-point coordinates directly rather than going back through the
    /// projection: re-projecting would re-round every position on every restart, and the drift
    /// would accumulate over a service's lifetime.
    ///
    /// Returns the collection and how many records were dropped for being older than the TTL.
    pub fn restore_at(
        name: &str,
        config: Config,
        labels: &Vec<Vec<String>>,
        states: &Vec<DeviceState>,
        now: u64,
    ) -> (r: (Self, usize))
        requires
            config.acceptable(),
            forall|i: int| 0 <= i < states.len() ==> restorable((#[trigger] states[i]).stored()),
            config.holds(states.len() as int),
        ensures
            r.0.rebuilt(name@, config, labels@, stored_all(states@), now, r.1 as int),
    {
        let mut c = Collection::new_at(name, config, now);
        c.interner = Interner::restore(&c.schema, labels);
        let limit = super::upkeep::cutoff_at(now, c.ttl);
        let ghost start = c;
        let ghost q = stored_all(states@);
        let ghost rr = c.restoring(now);
        let mut skipped: usize = 0;
        let mut i: usize = 0;
        proof {
            assert(c.numbered());
            assert(c.wf());
            config.lemma_options(c.schema);
            assert(c.index.room_for(states.len() as int));
            let a = c.index.state();
            lemma_becomes(a, a, a, by_restoring(q, rr), 0);
        }
        while i < states.len()
            invariant
                i <= states.len(),
                q == stored_all(states@),
                rr == start.restoring(now),
                c.wf(),
                c.same_setup(start),
                c.tallies() == start.tallies(),
                limit == cutoff(now, start.ttl),
                c.recs() == restored_all(q, rr, i as int),
                skipped == skipped_of(q, rr, i as int),
                skipped <= i,
                becomes(start.index.state(), c.index.state(), by_restoring(q, rr), i as int),
                c.room_for(states.len() - i),
                forall|i: int| 0 <= i < states.len() ==> restorable((#[trigger] states[i]).stored()),
            decreases states.len() - i,
        {
            let t = &states[i];
            let ghost before = c;
            proof {
                assert(q[i as int] == t.stored());
                c.lemma_room(1, states.len() - i);
                c.lemma_room(states.len() - i - 1, states.len() - i);
            }
            if t.last_seen_ms < limit {
                skipped = skipped + 1;
            } else {
                c.revive(t, Ghost(now));
                proof {
                    c.lemma_room_left(before, states.len() - i);
                }
            }
            proof {
                let (a, m, b) = (start.index.state(), before.index.state(), c.index.state());
                lemma_becomes(a, m, b, by_restoring(q, rr), i as int);
            }
            i = i + 1;
        }
        let n = c.index.len();
        c.restored = n as u64;
        proof {
            assert(c.numbered());
            assert(c.wf());
        }
        (c, skipped)
    }
}

} // verus!
