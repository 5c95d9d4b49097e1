//! What is known of a device, a cluster handle or a filter value.
use super::query::{drawings, pictured, pictured_all, OutFeature};
use super::{maybe, number_of, wanted, Collection, Record, NO_MATCH};
use crate::clock::now_ms;
use crate::encoding::{resolved_all, sel_names};
use crate::feature::{handle_message, Feature};
use crate::register::lemma_register;
use crate::schema::{Interner, Interning, Looking};
use crate::text::{list, listing, quote, quoted, texts};
use vstd::hash_map::StringHashMap;
use vstd::prelude::*;
use vstd::string::StringExecFns;

verus! {

/// Everything known about one device.
#[derive(Debug, Clone)]
pub struct DeviceInfo {
    pub id: String,
    pub x: i32,
    pub y: i32,
    /// The label of its category, where categories are declared.
    pub cat: Option<String>,
    pub cat_index: u32,
    pub last_seen_ms: u64,
    pub age_ms: u64,
    pub updated_at_ms: Option<u64>,
    pub props: Option<String>,
}

/// The first filter cell of a device; 0 if it has none.
pub open spec fn main_cell(r: Record) -> u32 {
    if r.cells.len() > 0 {
        r.cells[0]
    } else {
        0
    }
}

/// How long ago a time was.
pub open spec fn age(now: u64, then: u64) -> u64 {
    if then <= now {
        (now - then) as u64
    } else {
        0
    }
}

impl DeviceInfo {
    /// It says what a record says, at a time.
    pub open spec fn tells(&self, r: Record, labels: Seq<String>, now: u64) -> bool {
        &&& self.id@ == r.id
        &&& r.at == Some((self.x, self.y))
        &&& self.cat_index == main_cell(r)
        &&& maybe(self.cat) == (if self.cat_index < labels.len() {
            Some(labels[self.cat_index as int]@)
        } else {
            None
        })
        &&& self.last_seen_ms == r.seen
        &&& self.age_ms == age(now, r.seen)
        &&& self.updated_at_ms == r.version
        &&& maybe(self.props) == r.props
    }
}

impl Collection {
    /// A device of this name is live.
    pub open spec fn has_device(&self, id: Seq<char>) -> bool {
        let n = number_of(self.recs(), id);
        n < self.devices.len() && self.recs()[n].live()
    }

    /// A live device is in the index, and no other.
    proof fn lemma_known(&self, n: u64)
        requires
            self.wf(),
            n < self.devices.len(),
        ensures
            self.index.net().knows(n) <==> self.recs()[n as int].live(),
            self.index.net().register().contains_key(n) <==> self.recs()[n as int].live(),
    {
        assert(self.index.net().register().contains_key(n) <==> wanted(self.recs()).contains_key(
            n,
        ));
    }

    /// Is a device with this id currently in the index?
    ///
    /// Distinct from "have we ever seen this id": interning is permanent, so a removed device
    /// keeps its number, and only the index is asked here.
    pub fn contains(&self, id: &str) -> (r: bool)
        requires
            self.sound(),
        ensures
            r == (number_of(self.recs(), id@) < self.devices.len() && self.index.net().knows(
                number_of(self.recs(), id@) as u64,
            )),
            self.agrees() ==> r == self.has_device(id@),
    {
        proof {
            self.lemma_numbered(id@);
        }
        match self.numbers.get(id) {
            Some(n) => {
                proof {
                    if self.agrees() {
                        self.lemma_known(*n);
                    }
                }
                self.index.contains(*n)
            },
            None => false,
        }
    }

    /// Everything known about one device at a time, or `None` if it is not registered.
    pub fn device_at(&self, id: &str, now: u64) -> (r: Option<DeviceInfo>)
        requires
            self.wf(),
        ensures
            match r {
                None => !self.has_device(id@),
                Some(d) => self.has_device(id@) && d.tells(
                    self.recs()[number_of(self.recs(), id@)],
                    self.config.categories@,
                    now,
                ),
            },
    {
        proof {
            self.lemma_numbered(id@);
        }
        let n = match self.numbers.get(id) {
            Some(n) => *n,
            None => {
                return None;
            },
        };
        proof {
            self.lemma_known(n);
            assert(self.recs()[n as int] == self.devices[n as int].record());
        }
        if !self.index.contains(n) {
            return None;
        }
        let d = &self.devices[n as usize];
        let (x, y): (i32, i32) = match d.position {
            Some((x, y)) => (x, y),
            None => {
                return None;
            },
        };
        let cat_index: u32 = if d.cells.len() > 0 {
            d.cells[0]
        } else {
            0
        };
        Some(
            DeviceInfo {
                id: d.id.clone(),
                x,
                y,
                cat: if (cat_index as usize) < self.config.categories.len() {
                    Some(self.config.categories[cat_index as usize].clone())
                } else {
                    None
                },
                cat_index,
                last_seen_ms: d.last_seen,
                age_ms: now.saturating_sub(d.last_seen),
                updated_at_ms: d.last_update,
                props: match &d.props {
                    Some(p) => Some(p.clone()),
                    None => None,
                },
            },
        )
    }

    /// Everything known about one device now, or `None` if it is not registered.
    pub fn device(&self, id: &str) -> (r: Option<DeviceInfo>)
        requires
            self.wf(),
        ensures
            match r {
                None => !self.has_device(id@),
                Some(d) => self.has_device(id@) && exists|now: u64| #[trigger]
                    d.tells(
                        self.recs()[number_of(self.recs(), id@)],
                        self.config.categories@,
                        now,
                    ),
            },
    {
        self.device_at(id, now_ms())
    }

    /// The index holds one point for each live device.
    pub(super) proof fn lemma_population(&self)
        requires
            self.sound(),
        ensures
            self.agrees() ==> self.index.net().pts.len() == wanted(self.recs()).dom().len(),
    {
        let net = self.index.net();
        self.index.law_invariants();
        let ids = net.register().dom();
        let f = |s: int| net.pts[s].id;
        let all = net.pts.dom();
        assert(all.map(f) =~= ids) by {
            assert forall|id: u64| #[trigger] ids.contains(id) implies all.map(f).contains(
                id,
            ) by {
                assert(net.knows(id));
                let s = net.holder(id);
                assert(net.named(s, id));
                assert(all.contains(s) && f(s) == id);
            }
            assert forall|id: u64| #[trigger] all.map(f).contains(id) implies ids.contains(
                id,
            ) by {
                let s = choose|s: int| all.contains(s) && f(s) == id;
                assert(net.named(s, id));
            }
        }
        assert(vstd::relations::injective_on(f, all)) by {
            assert forall|a: int, b: int|
                all.contains(a) && all.contains(b) && #[trigger] f(a) == #[trigger] f(
                    b,
                ) implies a == b by {
                assert(net.has(a) && net.has(b));
                assert(net.pts[a].id == net.pts[b].id);
            }
        }
        vstd::set_lib::lemma_map_size(all, ids, f);
    }

    /// How many devices are live.
    pub fn len(&self) -> (n: usize)
        requires
            self.sound(),
        ensures
            n == self.index.net().pts.len(),
            self.agrees() ==> n == wanted(self.recs()).dom().len(),
    {
        proof {
            self.lemma_population();
        }
        self.index.len()
    }

    pub fn is_empty(&self) -> (r: bool)
        requires
            self.sound(),
        ensures
            r == (self.index.net().pts.len() == 0),
            self.agrees() ==> r == (wanted(self.recs()).dom().len() == 0),
    {
        self.len() == 0
    }

    /// The marker a device is drawn as at a zoom.
    pub fn device_cluster(&self, id: &str, zoom: i32) -> (r: Option<OutFeature>)
        requires
            self.wf(),
        ensures
            match r {
                None => !self.has_device(id@),
                Some(out) => self.has_device(id@) && exists|f: Feature| #[trigger]
                    self.index.net().shows(
                        f,
                        self.index.slots(),
                        -1,
                        self.index.net().rep(
                            self.index.net().holder(number_of(self.recs(), id@) as u64),
                            self.index.zoom_of(zoom as int),
                        ),
                        self.index.zoom_of(zoom as int),
                    ) && out.drawn() == pictured(self.recs(), f),
            },
    {
        proof {
            self.lemma_numbered(id@);
            self.index.law_invariants();
        }
        let n = match self.numbers.get(id) {
            Some(n) => *n,
            None => {
                return None;
            },
        };
        proof {
            self.lemma_known(n);
        }
        match self.index.cluster_of(n, zoom) {
            None => None,
            Some(f) => {
                let ghost net = self.index.net();
                let ghost z = self.index.zoom_of(zoom as int);
                proof {
                    let p = choose|p: int| #[trigger]
                        net.named(p, n) && net.shows(f, self.index.slots(), -1, net.rep(p, z), z);
                    lemma_register(net, p, n);
                    assert(net.knows(n));
                    assert(net.shows(f, self.index.slots(), -1, net.rep(net.holder(n), z), z));
                }
                let out = self.out(&f);
                proof {
                    assert(n == number_of(self.recs(), id@) as u64);
                    assert(net.shows(f, self.index.slots(), -1, net.rep(net.holder(n), z), z)
                        && out.drawn() == pictured(self.recs(), f));
                }
                Some(out)
            },
        }
    }

    /// The sub-clusters one expansion step below a cluster.
    pub fn children(&self, cluster_id: u64) -> (r: Result<Vec<OutFeature>, String>)
        requires
            self.wf(),
        ensures
            match r {
                Ok(out) => self.index.net().live_handle(cluster_id) && exists|fs: Seq<Feature>|
                    #[trigger] self.index.breaks_into(cluster_id, fs) && drawings(out@)
                        == pictured_all(self.recs(), fs),
                Err(e) => !self.index.net().live_handle(cluster_id) && e@ == handle_message(
                    cluster_id as int,
                ),
            },
    {
        match self.index.get_children(cluster_id) {
            Ok(fs) => {
                let out = self.out_all(&fs);
                proof {
                    assert(self.index.breaks_into(cluster_id, fs@) && drawings(out@)
                        == pictured_all(self.recs(), fs@));
                }
                Ok(out)
            },
            Err(e) => Err(e.message()),
        }
    }

    /// Zoom at which a cluster first splits.
    pub fn expansion_zoom(&self, cluster_id: u64) -> (r: Result<i32, String>)
        requires
            self.wf(),
        ensures
            match r {
                Ok(nz) => self.index.net().live_handle(cluster_id) && self.index.net().splits_at(
                    cluster_id as int / 32,
                    cluster_id as int % 32,
                    nz as int,
                ),
                Err(e) => !self.index.net().live_handle(cluster_id) && e@ == handle_message(
                    cluster_id as int,
                ),
            },
    {
        match self.index.get_cluster_expansion_zoom(cluster_id) {
            Ok(z) => Ok(z),
            Err(e) => Err(e.message()),
        }
    }

    /// The devices inside a cluster, paginated.
    pub fn leaves(&self, cluster_id: u64, limit: usize, offset: usize) -> (r: Result<
        Vec<OutFeature>,
        String,
    >)
        requires
            self.wf(),
        ensures
            match r {
                Ok(out) => self.index.net().live_handle(cluster_id) && exists|fs: Seq<Feature>|
                    #[trigger] self.index.leaf_page(
                        cluster_id,
                        limit as int,
                        offset as int,
                        fs,
                    ) && drawings(out@) == pictured_all(self.recs(), fs),
                Err(e) => !self.index.net().live_handle(cluster_id) && e@ == handle_message(
                    cluster_id as int,
                ),
            },
    {
        match self.index.get_leaves(cluster_id, limit, offset) {
            Ok(fs) => {
                let out = self.out_all(&fs);
                proof {
                    assert(self.index.leaf_page(cluster_id, limit as int, offset as int, fs@)
                        && drawings(out@) == pictured_all(self.recs(), fs@));
                }
                Ok(out)
            },
            Err(e) => Err(e.message()),
        }
    }
}

/// What a category selector means: everything without one, else the cell of that value of the
/// first dimension.
pub open spec fn category_of(c: Collection, sel: Seq<char>, one: Seq<(String, String)>) -> Result<
    i32,
    Seq<char>,
> {
    if c.schema.dims.len() == 0 {
        Err("unknown category "@ + quoted(sel) + "; this collection declares no filters"@)
    } else {
        match c.schema.queried(c.interner@, false, one).0 {
            Ok(Some(cell)) => Ok(cell),
            Ok(None) => Ok(NO_MATCH),
            Err(_) => Err(
                "unknown category "@ + quoted(sel) + "; this collection has "@ + listing(
                    texts(c.config.categories@),
                ),
            ),
        }
    }
}

/// The selection of a value of one dimension.
pub open spec fn selects(one: Seq<(String, String)>, name: Seq<char>, value: Seq<char>) -> bool {
    one.len() == 1 && one[0].0@ == name && one[0].1@ == value
}

/// The same answer.
pub open spec fn says(r: Result<i32, String>, a: Result<i32, Seq<char>>) -> bool {
    match (r, a) {
        (Ok(x), Ok(y)) => x == y,
        (Err(e), Err(f)) => e@ == f,
        _ => false,
    }
}

impl Collection {
    /// Resolve a category selector: either a declared label, or a plain index. Fails for one that
    /// names nothing, so a typo in a query fails loudly instead of silently returning an empty
    /// map.
    pub fn category(&self, sel: Option<&str>) -> (r: Result<i32, String>)
        requires
            self.sound(),
        ensures
            match sel {
                None => r == Ok::<i32, String>(-1 as i32),
                Some(t) => if t@.len() == 0 {
                    r == Ok::<i32, String>(-1 as i32)
                } else {
                    exists|one: Seq<(String, String)>|
                        (self.schema.dims.len() > 0 ==> selects(
                            one,
                            self.schema.dims[0].name@,
                            t@,
                        )) && says(r, #[trigger] category_of(*self, t@, one))
                },
            },
    {
        let sel = match sel {
            Some(s) => s,
            None => {
                return Ok(-1);
            },
        };
        if sel.is_empty() {
            return Ok(-1);
        }
        if self.schema.dims.len() == 0 {
            let mut t = String::from_str("unknown category ");
            t.append(quote(sel).as_str());
            t.append("; this collection declares no filters");
            let r = Err(t);
            proof {
                assert(says(r, category_of(*self, sel@, Seq::empty())));
            }
            return r;
        }
        let mut one: Vec<(String, String)> = Vec::new();
        one.push((self.schema.dims[0].name.clone(), String::from_str(sel)));
        proof {
            assert(sel_names(one@).len() == 1);
            assert(selects(one@, self.schema.dims[0].name@, sel@));
        }
        let r = match self.filter_cell(&one) {
            Ok(Some(c)) => Ok(c),
            Ok(None) => Ok(NO_MATCH),
            Err(_) => {
                let mut t = String::from_str("unknown category ");
                t.append(quote(sel).as_str());
                t.append("; this collection has ");
                t.append(list(&self.config.categories).as_str());
                Err(t)
            },
        };
        proof {
            assert(says(r, category_of(*self, sel@, one@)));
        }
        r
    }

    /// The cell that a selection of values picks; -1 for an empty one, which means everything.
    ///
    /// `Ok(None)` means no device can match: the query named a value on a dynamic dimension that
    /// nothing has ever reported. That is an empty map rather than an error: on a dimension whose
    /// values are discovered as devices arrive, a caller cannot know which exist yet.
    pub fn filter_cell(&self, sel: &Vec<(String, String)>) -> (r: Result<Option<i32>, String>)
        requires
            self.sound(),
            sel_names(sel@).no_duplicates(),
        ensures
            match r {
                Ok(c) => self.schema.queried(self.interner@, false, sel@).0 == Ok::<
                    Option<i32>,
                    Seq<char>,
                >(c) && (c matches Some(c) ==> -1 <= c < self.schema.cells as int && (c == -1
                    <==> sel.len() == 0)),
                Err(e) => self.schema.queried(self.interner@, false, sel@).0 == Err::<
                    Option<i32>,
                    Seq<char>,
                >(e@),
            },
    {
        let mut res = Looking { schema: &self.schema, interner: &self.interner };
        self.schema.query_cell(sel, &mut res)
    }

    /// Resolve a report's values to cells, interning any that are new.
    ///
    /// Indices are permanent. Recycling them can invalidate an already-resolved report, query or
    /// snapshot even when no current device uses one.
    pub fn cells_for_report(
        &mut self,
        vals: &StringHashMap<Vec<String>>,
        out: &mut Vec<u32>,
    ) -> (r: Result<(), String>)
        requires
            old(self).sound(),
        ensures
            final(self).sound(),
            old(self).agrees() ==> final(self).agrees(),
            *final(self) == (Collection { interner: final(self).interner, ..*old(self) }),
            final(self).interner@ == resolved_all(
                old(self).schema.dims@,
                old(self).interner@,
                true,
                vals@,
                old(self).schema.dims.len() as int,
            ).1,
            match r {
                Ok(_) => {
                    &&& old(self).schema.filed(old(self).interner@, true, vals@) == Ok::<
                        Seq<u32>,
                        Seq<char>,
                    >(final(out)@)
                    &&& final(out)@.no_duplicates()
                    &&& final(out)@.len() <= old(self).schema.max_cells_per_device
                    &&& forall|j: int|
                        0 <= j < final(out)@.len() ==> #[trigger] final(out)@[j] < old(
                            self,
                        ).schema.cells
                },
                Err(e) => old(self).schema.filed(old(self).interner@, true, vals@) == Err::<
                    Seq<u32>,
                    Seq<char>,
                >(e@),
            },
            final(out)@ == old(self).schema.reached(old(self).interner@, true, vals@),
    {
        let ghost o = *self;
        let mut interner = Interner { tables: Vec::new() };
        std::mem::swap(&mut interner, &mut self.interner);
        let mut res = Interning { schema: &self.schema, interner };
        let r = self.schema.cells_for(vals, out, &mut res);
        let Interning { interner, .. } = res;
        self.interner = interner;
        proof {
            assert(self.numbered());
        }
        r
    }

    /// How many distinct values each dynamic dimension has seen.
    pub fn interned(&self) -> (v: Vec<usize>)
        requires
            self.sound(),
        ensures
            v@.len() == self.schema.dims.len(),
            forall|d: int| 0 <= d < v@.len() ==> #[trigger] v@[d] == self.interner@[d].len(),
    {
        let mut v: Vec<usize> = Vec::new();
        let mut d: usize = 0;
        while d < self.schema.dims.len()
            invariant
                self.sound(),
                d <= self.schema.dims.len(),
                v@.len() == d,
                forall|e: int| 0 <= e < d ==> #[trigger] v@[e] == self.interner@[e].len(),
            decreases self.schema.dims.len() - d,
        {
            v.push(self.interner.len(d));
            d = d + 1;
        }
        v
    }
}

} // verus!
