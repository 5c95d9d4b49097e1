//! What a collection says of itself: its limits, its figures, and whether it is in order.
use super::lookup::age;
use super::points::known_point;
use super::{maybe, wanted, Collection, Record};
use crate::clock::now_ms;
use crate::cells::Room;
use crate::config::Config;
use crate::index::verify::Verification;
use crate::sums::{lemma_total_nonneg, total};
use crate::text::{copy_texts, number, push_number, quote, quoted, texts};
use vstd::prelude::*;
use vstd::string::StringExecFns;
use vstd::utf8::encode_utf8;

verus! {

/// The figures of a collection.
#[derive(Debug, Clone)]
pub struct CollectionStats {
    pub name: String,
    pub devices: usize,
    pub max_zoom: u8,
    /// In thousandths of a pixel.
    pub radius: u32,
    pub categories: Vec<String>,
    pub ttl_seconds: u64,
    pub memory_bytes: usize,
    pub grid_entries: usize,
    pub centers_per_level: Vec<u32>,
    pub ingested: u64,
    pub queries: u64,
    pub expired: u64,
    pub stale_reports: u64,
    pub patched: u64,
    pub repairs: u64,
    pub uptime_ms: u64,
    /// All moves, and those that broke no invariant.
    pub moves: u64,
    pub moves_fast: u64,
    pub last_snapshot_ms: u64,
    pub last_snapshot_bytes: u64,
    pub snapshot_failures: u64,
    pub restored: u64,
    /// Distinct values seen, per dimension.
    pub interned: Vec<usize>,
    pub dimension_capacities: Vec<usize>,
    pub props_bytes: usize,
    pub max_props_bytes: usize,
    pub text: Vec<String>,
    pub text_bytes: usize,
}

/// As much of a count as a machine word can hold.
pub open spec fn capped(n: int) -> usize {
    if n > usize::MAX {
        usize::MAX
    } else {
        n as usize
    }
}

/// The bytes of a text, nothing for none, with something on top for each.
pub open spec fn weight(t: Option<Seq<char>>, more: int) -> int {
    match t {
        Some(s) => encode_utf8(s).len() + more,
        None => 0,
    }
}

/// The bytes of the first `k` properties.
pub open spec fn props_weight(recs: Seq<Record>, k: int) -> int {
    total(k, |i: int| weight(recs[i].props, 0))
}

pub open spec fn field_weight(text: Seq<Option<Seq<char>>>, k: int) -> int {
    total(k, |i: int| weight(text[i], 16))
}

/// The bytes of the searchable fields of the first `k` devices.
pub open spec fn text_weight(recs: Seq<Record>, k: int) -> int {
    total(k, |i: int| field_weight(recs[i].text, recs[i].text.len() as int))
}

fn add_capped(a: usize, b: usize) -> (c: usize)
    ensures
        c == capped(a + b),
{
    if a > usize::MAX - b {
        usize::MAX
    } else {
        a + b
    }
}

proof fn lemma_field_weight(text: Seq<Option<Seq<char>>>, k: int)
    ensures
        field_weight(text, k) >= 0,
{
    lemma_total_nonneg(k, |i: int| weight(text[i], 16));
}

/// The two limits that a repeated declaration may change, as far as it changes them.
pub open spec fn adopted(c: Collection, cfg: Config) -> Seq<Seq<char>> {
    (if c.ttl != cfg.ttl_seconds {
        seq!["ttl_seconds"@]
    } else {
        seq![]
    }) + (if c.props_limit != cfg.max_props_bytes {
        seq!["max_props_bytes"@]
    } else {
        seq![]
    })
}

pub open spec fn words(v: Seq<&'static str>) -> Seq<Seq<char>> {
    Seq::new(v.len(), |i: int| v[i]@)
}

impl Collection {
    /// How long a device may stay silent before the sweep drops it. 0 disables expiry. What is in
    /// force, which a repeated declaration may have changed.
    pub fn ttl_seconds(&self) -> (n: u64)
        ensures
            n == self.ttl,
    {
        self.ttl
    }

    /// Largest per-device properties blob accepted, in bytes. What is in force.
    pub fn max_props_bytes(&self) -> (n: usize)
        ensures
            n == self.props_limit,
    {
        self.props_limit
    }

    /// Take on the limits of a repeated declaration, naming what moved.
    ///
    /// Not a general "apply this configuration": with [`Config::frozen_conflict`] the caller has
    /// established that everything the index is built from is unchanged, and these two are all
    /// that is left.
    pub fn adopt(&mut self, cfg: &Config) -> (changed: Vec<&'static str>)
        ensures
            *final(self) == (Collection {
                ttl: cfg.ttl_seconds,
                props_limit: cfg.max_props_bytes,
                ..*old(self)
            }),
            old(self).sound() ==> final(self).sound(),
            old(self).agrees() ==> final(self).agrees(),
            words(changed@) == adopted(*old(self), *cfg),
    {
        let ghost o = *self;
        let mut changed: Vec<&'static str> = Vec::new();
        if self.ttl != cfg.ttl_seconds {
            changed.push("ttl_seconds");
        }
        if self.props_limit != cfg.max_props_bytes {
            changed.push("max_props_bytes");
        }
        self.ttl = cfg.ttl_seconds;
        self.props_limit = cfg.max_props_bytes;
        proof {
            assert(words(changed@) =~= adopted(o, *cfg));
            assert(o.numbered() ==> self.numbered());
        }
        changed
    }

    /// The configuration as it stands, adopted limits included.
    ///
    /// This, not `config`, is what a snapshot records. Writing the declaration instead would
    /// quietly undo an adopted TTL on the next restart.
    pub fn effective_config(&self) -> (c: Config)
        ensures
            self.config.conflict(c) is None,
            c.ttl_seconds == self.ttl,
            c.max_props_bytes == self.props_limit,
    {
        let mut c = self.config.copy();
        c.ttl_seconds = self.ttl;
        c.max_props_bytes = self.props_limit;
        c
    }

    /// A snapshot of so many bytes was written.
    pub fn snapshot_written(&mut self, now: u64, bytes: u64)
        ensures
            *final(self) == (Collection {
                last_snapshot_ms: now,
                last_snapshot_bytes: bytes,
                ..*old(self)
            }),
            old(self).sound() ==> final(self).sound(),
            old(self).agrees() ==> final(self).agrees(),
    {
        let ghost o = *self;
        self.last_snapshot_ms = now;
        self.last_snapshot_bytes = bytes;
        proof {
            assert(o.numbered() ==> self.numbered());
        }
    }

    /// A snapshot could not be written.
    pub fn snapshot_failed(&mut self)
        ensures
            *final(self) == (Collection {
                snapshot_failures: old(self).snapshot_failures.wrapping_add(1),
                ..*old(self)
            }),
            old(self).sound() ==> final(self).sound(),
            old(self).agrees() ==> final(self).agrees(),
    {
        let ghost o = *self;
        self.snapshot_failures = self.snapshot_failures.wrapping_add(1);
        proof {
            assert(o.numbered() ==> self.numbered());
        }
    }

    fn props_size(&self) -> (n: usize)
        ensures
            n == capped(props_weight(self.recs(), self.devices.len() as int)),
    {
        let ghost recs = self.recs();
        let mut n: usize = 0;
        let mut i: usize = 0;
        while i < self.devices.len()
            invariant
                i <= self.devices.len(),
                recs == self.recs(),
                n == capped(props_weight(recs, i as int)),
            decreases self.devices.len() - i,
        {
            proof {
                assert(recs[i as int].props == maybe(self.devices[i as int].props));
                lemma_total_nonneg(i as int, |i: int| weight(recs[i].props, 0));
            }
            if let Some(p) = &self.devices[i].props {
                n = add_capped(n, p.as_str().as_bytes().len());
            }
            i = i + 1;
        }
        n
    }

    fn field_size(text: &Vec<Option<String>>) -> (n: usize)
        ensures
            n == capped(field_weight(crate::json::maybes(text@), text.len() as int)),
    {
        let ghost q = crate::json::maybes(text@);
        let mut n: usize = 0;
        let mut i: usize = 0;
        while i < text.len()
            invariant
                i <= text.len(),
                q == crate::json::maybes(text@),
                n == capped(field_weight(q, i as int)),
            decreases text.len() - i,
        {
            proof {
                assert(q[i as int] == maybe(text@[i as int]));
                lemma_field_weight(q, i as int);
            }
            if let Some(t) = &text[i] {
                n = add_capped(n, add_capped(t.as_str().as_bytes().len(), 16));
            }
            i = i + 1;
        }
        n
    }

    fn text_size(&self) -> (n: usize)
        ensures
            n == capped(text_weight(self.recs(), self.devices.len() as int)),
    {
        let ghost recs = self.recs();
        let mut n: usize = 0;
        let mut i: usize = 0;
        while i < self.devices.len()
            invariant
                i <= self.devices.len(),
                recs == self.recs(),
                n == capped(text_weight(recs, i as int)),
            decreases self.devices.len() - i,
        {
            proof {
                assert(recs[i as int] == self.devices[i as int].record());
                let f = |i: int| field_weight(recs[i].text, recs[i].text.len() as int);
                assert forall|j: int| 0 <= j < i implies #[trigger] f(j) >= 0 by {
                    lemma_field_weight(recs[j].text, recs[j].text.len() as int);
                }
                lemma_total_nonneg(i as int, f);
                lemma_field_weight(recs[i as int].text, recs[i as int].text.len() as int);
            }
            n = add_capped(n, Self::field_size(&self.devices[i].text));
            i = i + 1;
        }
        n
    }

    fn capacities(&self) -> (v: Vec<usize>)
        requires
            self.sound(),
        ensures
            v@.len() == self.schema.dims.len(),
            forall|d: int| 0 <= d < v@.len() ==> #[trigger] v@[d] == self.schema.dims[d].width(),
    {
        let mut v: Vec<usize> = Vec::new();
        let mut d: usize = 0;
        while d < self.schema.dims.len()
            invariant
                self.sound(),
                d <= self.schema.dims.len(),
                v@.len() == d,
                forall|e: int| 0 <= e < d ==> #[trigger] v@[e] == self.schema.dims[e].width(),
            decreases self.schema.dims.len() - d,
        {
            v.push(self.schema.dims[d].size());
            d = d + 1;
        }
        v
    }

    /// The figures at a time, after so many queries.
    pub fn stats_at(&self, queries: u64, now: u64) -> (s: CollectionStats)
        requires
            self.sound(),
        ensures
            s.figures(*self, queries, now),
    {
        let counted = self.index.get_stats();
        let centers_per_level = self.index.centers_per_level();
        let memory_bytes = self.index.memory_bytes();
        let ghost room = choose|r: Room| #[trigger] self.index.weighs(memory_bytes as int, r);
        proof {
            assert(centers_per_level@ =~= Seq::new(
                (self.opts().max_zoom + 1) as nat,
                |z: int| self.index.net().centers_at(self.index.slots(), z) as u32,
            ));
        }
        let s = CollectionStats {
            name: self.name.clone(),
            devices: self.index.len(),
            max_zoom: self.config.max_zoom,
            radius: self.config.radius,
            categories: copy_texts(&self.config.categories),
            ttl_seconds: self.ttl,
            memory_bytes,
            grid_entries: self.index.grid_entries(),
            centers_per_level,
            ingested: self.ingested,
            queries,
            expired: self.expired,
            stale_reports: self.stale_reports,
            patched: self.patched,
            repairs: self.repairs,
            uptime_ms: now.saturating_sub(self.created_ms),
            moves: counted.moves,
            moves_fast: counted.moves_fast,
            last_snapshot_ms: self.last_snapshot_ms,
            last_snapshot_bytes: self.last_snapshot_bytes,
            snapshot_failures: self.snapshot_failures,
            restored: self.restored,
            interned: self.interned(),
            dimension_capacities: self.capacities(),
            props_bytes: self.props_size(),
            max_props_bytes: self.props_limit,
            text: copy_texts(&self.config.text),
            text_bytes: self.text_size(),
        };
        proof {
            assert(self.index.weighs(s.memory_bytes as int, room));
            assert(s.figures(*self, queries, now));
        }
        s
    }

    /// The figures now, after so many queries.
    pub fn stats(&self, queries: u64) -> (s: CollectionStats)
        requires
            self.sound(),
        ensures
            exists|now: u64| #[trigger] s.figures(*self, queries, now),
    {
        self.stats_at(queries, now_ms())
    }
}

impl CollectionStats {
    /// These are the figures of a collection at a time.
    pub open spec fn figures(&self, c: Collection, queries: u64, now: u64) -> bool {
        &&& self.name@ == c.name@
        &&& self.devices == c.index.net().pts.len()
        &&& self.max_zoom == c.config.max_zoom
        &&& self.radius == c.config.radius
        &&& texts(self.categories@) == texts(c.config.categories@)
        &&& self.ttl_seconds == c.ttl
        &&& exists|r: Room| #[trigger] c.index.weighs(self.memory_bytes as int, r)
        &&& self.grid_entries == total(c.index.slots(), |s: int| c.index.net().levels_of(s))
        &&& self.centers_per_level@ == Seq::new(
            (c.opts().max_zoom + 1) as nat,
            |z: int| c.index.net().centers_at(c.index.slots(), z) as u32,
        )
        &&& self.ingested == c.ingested
        &&& self.queries == queries
        &&& self.expired == c.expired
        &&& self.stale_reports == c.stale_reports
        &&& self.patched == c.patched
        &&& self.repairs == c.repairs
        &&& self.uptime_ms == age(now, c.created_ms)
        &&& self.moves == c.index.counters().moves
        &&& self.moves_fast == c.index.counters().moves_fast
        &&& self.last_snapshot_ms == c.last_snapshot_ms
        &&& self.last_snapshot_bytes == c.last_snapshot_bytes
        &&& self.snapshot_failures == c.snapshot_failures
        &&& self.restored == c.restored
        &&& self.interned@.len() == c.schema.dims.len()
        &&& forall|d: int|
            0 <= d < c.schema.dims.len() ==> #[trigger] self.interned@[d] == c.interner@[d].len()
        &&& self.dimension_capacities@.len() == c.schema.dims.len()
        &&& forall|d: int|
            0 <= d < c.schema.dims.len() ==> #[trigger] self.dimension_capacities@[d]
                == c.schema.dims[d].width()
        &&& self.props_bytes == capped(props_weight(c.recs(), c.devices.len() as int))
        &&& self.max_props_bytes == c.props_limit
        &&& texts(self.text@) == texts(c.config.text@)
        &&& self.text_bytes == capped(text_weight(c.recs(), c.devices.len() as int))
    }
}

/// A summary in words.
pub open spec fn summary_text(v: Verification) -> Seq<char> {
    "Verification { points: "@ + number(v.points as int) + ", centers: "@ + number(v.centers as int)
        + ", leaves: "@ + number(v.leaves as int) + ", grid_listings: "@ + number(
        v.grid_listings as int,
    ) + ", max_depth: "@ + number(v.max_depth as int) + " }"@
}

/// The index holds of a live device what its record says.
pub open spec fn mirrored(c: Collection, n: int) -> bool {
    c.recs()[n].live() ==> c.index.net().register().contains_key(n as u64)
        && c.index.net().register()[n as u64] == super::spot_of(c.recs()[n])
}

impl Collection {
    /// Run the full check: the index against the records, then the index by itself.
    pub fn verify(&self) -> (r: Result<String, String>)
        requires
            self.sound(),
        ensures
            match r {
                Ok(s) => {
                    &&& forall|n: int| 0 <= n < self.devices.len() ==> #[trigger] mirrored(*self, n)
                    &&& exists|v: Verification| #[trigger]
                        self.index.net().summary(self.index.slots(), v) && s@ == summary_text(v)
                },
                Err(e) => exists|n: int|
                    {
                        &&& 0 <= n < self.devices.len()
                        &&& !#[trigger] mirrored(*self, n)
                        &&& forall|m: int| 0 <= m < n ==> #[trigger] mirrored(*self, m)
                        &&& e@ == "source/index mismatch for device "@ + quoted(self.recs()[n].id)
                    },
            },
            self.agrees() ==> r is Ok,
    {
        let mut n: usize = 0;
        while n < self.devices.len()
            invariant
                self.sound(),
                n <= self.devices.len(),
                forall|m: int| 0 <= m < n ==> #[trigger] mirrored(*self, m),
            decreases self.devices.len() - n,
        {
            let d = &self.devices[n];
            proof {
                assert(self.recs()[n as int] == self.devices[n as int].record());
            }
            if d.last_seen != u64::MAX {
                let same = match (known_point(&self.index, n as u64), d.position) {
                    (Some((x, y, cells)), Some((a, b))) => x == a && y == b && same_cells(
                        &cells,
                        &d.cells,
                    ),
                    _ => false,
                };
                if !same {
                    let mut t = String::from_str("source/index mismatch for device ");
                    t.append(quote(d.id.as_str()).as_str());
                    proof {
                        assert(!mirrored(*self, n as int));
                        if self.agrees() {
                            assert(wanted(self.recs()).contains_key(n as u64));
                        }
                    }
                    return Err(t);
                }
            }
            proof {
                assert(mirrored(*self, n as int));
            }
            n = n + 1;
        }
        match self.index.verify() {
            Ok(v) => {
                let mut s = String::from_str("Verification { points: ");
                push_number(&mut s, v.points as u64);
                s.append(", centers: ");
                push_number(&mut s, v.centers as u64);
                s.append(", leaves: ");
                push_number(&mut s, v.leaves as u64);
                s.append(", grid_listings: ");
                push_number(&mut s, v.grid_listings as u64);
                s.append(", max_depth: ");
                push_number(&mut s, v.max_depth as u64);
                s.append(" }");
                proof {
                    assert(s@ =~= summary_text(v));
                }
                Ok(s)
            },
            Err(e) => Err(e),
        }
    }
}

fn same_cells(a: &Vec<u32>, b: &Vec<u32>) -> (r: bool)
    ensures
        r == (a@ == b@),
{
    if a.len() != b.len() {
        return false;
    }
    let mut i: usize = 0;
    while i < a.len()
        invariant
            i <= a.len(),
            a.len() == b.len(),
            forall|j: int| 0 <= j < i ==> #[trigger] a@[j] == b@[j],
        decreases a.len() - i,
    {
        if a[i] != b[i] {
            return false;
        }
        i = i + 1;
    }
    proof {
        assert(a@ =~= b@);
    }
    true
}

} // verus!
