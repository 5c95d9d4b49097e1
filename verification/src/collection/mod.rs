//! A collection: one index, plus the bookkeeping a server needs around it.
//!
//! It is not a database. It holds no truth: the authority for where devices are lives wherever
//! the position reports come from, and this is a *materialised view* of that stream. A process
//! that dies is a process to restart.
//!
//! The records below are the source of the view; the index is derived from them. A collection is
//! *sound* when each is in order, and *agrees* when the index holds exactly what the records say.
use crate::config::Config;

use crate::geometry::{in_world, Options};
use crate::index::{cells_ok, NetCluster};
use crate::json::maybes;
use crate::register::Spot;
use crate::schema::{Interner, Schema};
use vstd::hash_map::StringHashMap;
use vstd::prelude::*;

pub mod batch;
pub mod figures;
pub mod ingest;
pub mod laws;
pub mod lookup;
pub mod persist;
pub mod points;
pub mod promises;
pub mod query;
pub mod select;
pub mod telling;
pub mod upkeep;
pub mod views;

verus! {

/// The cell of a query that cannot match anything. Distinct from -1, which means "no filter at
/// all": confusing the two would show the whole fleet.
pub const NO_MATCH: i32 = -2;

/// The report time of a device that is not live.
pub const NEVER: u64 = u64::MAX;

/// What is recorded of a device.
///
/// Ids arrive as strings and the index wants integers, so they are interned: a device's number is
/// its position among the records. Interning is permanent: an id that goes away keeps its number,
/// so a device that reappears lands back in the same slot.
pub struct Device {
    pub id: String,
    /// Last report time; [`NEVER`] means "not currently live".
    pub last_seen: u64,
    /// Optional source version for rejecting late retries. `None` preserves the arrival-order
    /// semantics until a device first receives a version.
    pub last_update: Option<u64>,
    /// Last position.
    pub position: Option<(i32, i32)>,
    /// Last filter cells.
    pub cells: Vec<u32>,
    /// Free-form properties, as they came.
    pub props: Option<String>,
    /// Searchable fields, in the order they are declared, lowercased.
    pub text: Vec<Option<String>>,
}

/// What a [`Device`] says.
pub struct Record {
    pub id: Seq<char>,
    pub seen: u64,
    pub version: Option<u64>,
    pub at: Option<(i32, i32)>,
    pub cells: Seq<u32>,
    pub props: Option<Seq<char>>,
    pub text: Seq<Option<Seq<char>>>,
}

pub open spec fn maybe(s: Option<String>) -> Option<Seq<char>> {
    match s {
        Some(s) => Some(s@),
        None => None,
    }
}

impl Device {
    pub open spec fn record(&self) -> Record {
        Record {
            id: self.id@,
            seen: self.last_seen,
            version: self.last_update,
            at: self.position,
            cells: self.cells@,
            props: maybe(self.props),
            text: maybes(self.text@),
        }
    }
}

impl Record {
    pub open spec fn live(&self) -> bool {
        self.seen != NEVER
    }
}

/// A device of which only the id is known.
pub open spec fn blank(id: Seq<char>, fields: int) -> Record {
    Record {
        id,
        seen: NEVER,
        version: None,
        at: None,
        cells: seq![],
        props: None,
        text: Seq::new(fields as nat, |i: int| None),
    }
}

pub open spec fn records(v: Seq<Device>) -> Seq<Record> {
    Seq::new(v.len(), |i: int| v[i].record())
}

/// What the index should hold: position and cells of every live device, by number.
pub open spec fn wanted(recs: Seq<Record>) -> Map<u64, Spot> {
    Map::new(
        |n: u64| n < recs.len() && recs[n as int].live(),
        |n: u64| spot_of(recs[n as int]),
    )
}

pub open spec fn spot_of(r: Record) -> Spot {
    match r.at {
        Some((x, y)) => (x as int, y as int, r.cells),
        None => (0, 0, r.cells),
    }
}

/// A record in order: a live device has a position and cells that exist; of one that is not live
/// nothing is kept but its id.
pub open spec fn good_record(r: Record, o: Options, fields: int) -> bool {
    &&& r.text.len() == fields
    &&& r.live() ==> (r.at matches Some((x, y)) && in_world(x as int) && in_world(y as int)
        && cells_ok(o, r.cells))
    &&& !r.live() ==> r == blank(r.id, fields)
}

/// The number of the device called `id`, from `i` on; behind the last if there is none.
pub open spec fn number_from(recs: Seq<Record>, id: Seq<char>, i: int) -> int
    decreases recs.len() - i,
{
    if i >= recs.len() || recs[i].id == id {
        i
    } else {
        number_from(recs, id, i + 1)
    }
}

pub open spec fn number_of(recs: Seq<Record>, id: Seq<char>) -> int {
    number_from(recs, id, 0)
}

/// Ids are distinct.
pub open spec fn ids_differ(recs: Seq<Record>) -> bool {
    forall|i: int, j: int|
        0 <= i < j < recs.len() ==> (#[trigger] recs[i]).id != (#[trigger] recs[j]).id
}

/// There is one place to find an id.
pub proof fn lemma_number(recs: Seq<Record>, id: Seq<char>, i: int)
    requires
        0 <= i <= recs.len(),
    ensures
        i <= number_from(recs, id, i) <= recs.len(),
        number_from(recs, id, i) < recs.len() ==> recs[number_from(recs, id, i)].id == id,
        forall|j: int| i <= j < number_from(recs, id, i) ==> (#[trigger] recs[j]).id != id,
    decreases recs.len() - i,
{
    if i < recs.len() && recs[i].id != id {
        lemma_number(recs, id, i + 1);
    }
}

/// What a collection counts.
pub struct Tallies {
    pub ingested: u64,
    pub expired: u64,
    pub stale_reports: u64,
    pub patched: u64,
    pub repairs: u64,
}

pub struct Collection {
    pub name: String,
    /// What this collection was created with.
    ///
    /// Two of its numbers can be adopted later, so they are a record of the declaration and not
    /// of what is in force: read those through [`Collection::ttl_seconds`] and
    /// [`Collection::max_props_bytes`]. Everything else here is frozen.
    pub config: Config,
    /// The limits in force.
    pub ttl: u64,
    pub props_limit: usize,
    /// Resolved filter schema.
    pub schema: Schema,
    /// Where a device with no filter values at all goes: value 0 in every dimension. Without this
    /// a device reported without values would hold no cells and vanish from every filter while
    /// still appearing unfiltered.
    pub default_cells: Vec<u32>,
    /// Value indices for dimensions declared with a `capacity` rather than a list.
    pub interner: Interner,
    pub index: NetCluster,
    pub devices: Vec<Device>,
    /// The number of each id.
    pub numbers: StringHashMap<u64>,
    pub created_ms: u64,
    pub ingested: u64,
    pub expired: u64,
    pub last_snapshot_ms: u64,
    pub last_snapshot_bytes: u64,
    pub snapshot_failures: u64,
    /// Devices loaded from a snapshot at startup.
    pub restored: u64,
    /// Reports ignored because their source version was older than the stored one.
    pub stale_reports: u64,
    /// Metadata-only updates applied. Separate from `ingested`, which counts position reports.
    pub patched: u64,
    /// Index rebuilds triggered by a mismatch with the records.
    pub repairs: u64,
}

impl Collection {
    /// The records.
    pub open spec fn recs(&self) -> Seq<Record> {
        records(self.devices@)
    }

    pub open spec fn opts(&self) -> Options {
        self.config.options_for(self.schema.cells, self.schema.max_cells_per_device)
    }

    /// How many fields can be searched.
    pub open spec fn fields(&self) -> int {
        self.config.text.len() as int
    }

    /// Every id leads to its device.
    pub open spec fn numbered(&self) -> bool {
        &&& forall|i: int|
            0 <= i < self.devices.len() ==> self.numbers@.contains_key(
                (#[trigger] self.devices[i]).id@,
            ) && self.numbers@[self.devices[i].id@] == i
        &&& forall|id: Seq<char>| #[trigger]
            self.numbers@.contains_key(id) ==> self.numbers@[id] < self.devices.len()
                && self.devices[self.numbers@[id] as int].id@ == id
    }

    /// Everything but the index's agreement with the records.
    pub open spec fn sound(&self) -> bool {
        &&& self.config.built_of(self.schema)
        &&& self.interner.wf(self.schema.dims@)
        &&& self.index.wf()
        &&& self.index.opts() == self.opts()
        &&& cells_ok(self.opts(), self.default_cells@)
        &&& self.numbered()
        &&& forall|i: int|
            0 <= i < self.devices.len() ==> good_record(
                (#[trigger] self.devices[i]).record(),
                self.opts(),
                self.fields(),
            )
        &&& forall|n: u64| #[trigger]
            self.index.net().register().contains_key(n) ==> n < self.devices.len()
    }

    /// The index holds exactly what the records say.
    pub open spec fn agrees(&self) -> bool {
        self.index.net().register() == wanted(self.recs())
    }

    /// The index holds of device `n` what its record says.
    pub open spec fn agrees_on(&self, n: int) -> bool {
        let m = self.index.net().register();
        &&& m.contains_key(n as u64) <==> wanted(self.recs()).contains_key(n as u64)
        &&& m.contains_key(n as u64) ==> m[n as u64] == wanted(self.recs())[n as u64]
    }

    pub open spec fn wf(&self) -> bool {
        self.sound() && self.agrees()
    }

    /// There is room for `k` more devices on this machine.
    pub open spec fn room_for(&self, k: int) -> bool {
        self.index.room_for(k) && self.opts().houses(self.devices.len() + k)
    }

    /// All but the records, the index and the counters.
    pub open spec fn same_setup(&self, o: Collection) -> bool {
        &&& self.name == o.name
        &&& self.config == o.config
        &&& self.ttl == o.ttl
        &&& self.props_limit == o.props_limit
        &&& self.schema == o.schema
        &&& self.default_cells == o.default_cells
        &&& self.interner == o.interner
        &&& self.created_ms == o.created_ms
        &&& self.last_snapshot_ms == o.last_snapshot_ms
        &&& self.last_snapshot_bytes == o.last_snapshot_bytes
        &&& self.snapshot_failures == o.snapshot_failures
        &&& self.restored == o.restored
    }

    /// The counters.
    pub open spec fn tallies(&self) -> Tallies {
        Tallies {
            ingested: self.ingested,
            expired: self.expired,
            stale_reports: self.stale_reports,
            patched: self.patched,
            repairs: self.repairs,
        }
    }

    /// The number an id leads to.
    pub proof fn lemma_numbered(&self, id: Seq<char>)
        requires
            self.numbered(),
        ensures
            ids_differ(self.recs()),
            self.numbers@.contains_key(id) ==> number_of(self.recs(), id) == self.numbers@[id],
            !self.numbers@.contains_key(id) ==> number_of(self.recs(), id) == self.devices.len(),
    {
        let q = self.recs();
        assert forall|i: int, j: int| 0 <= i < j < q.len() implies (#[trigger] q[i]).id != (
        #[trigger] q[j]).id by {
            assert(self.numbers@[self.devices[i].id@] == i);
            assert(self.numbers@[self.devices[j].id@] == j);
        }
        lemma_number(q, id, 0);
        let n = number_of(q, id);
        if n < q.len() {
            assert(q[n].id == self.devices[n].id@);
            assert(self.numbers@.contains_key(self.devices[n].id@));
        }
        if self.numbers@.contains_key(id) {
            let k = self.numbers@[id] as int;
            assert(q[k].id == id);
            if k < n {
                assert(q[k].id != id);
            }
        }
    }
}

} // verus!
