//! Asking a collection.
use super::{maybe, Collection, Record, NO_MATCH};
use crate::clusters::Window;
use crate::feature::{Feature, TileFeature};
use crate::index::tile::tile_shows;
use crate::text::{contains, found_in};
use vstd::prelude::*;
use vstd::string::StringExecFns;

verus! {

/// One `?where=` term: a field, how to match, and what to match against.
#[derive(Debug, Clone)]
pub struct TextPred {
    pub field: usize,
    pub contains: bool,
    /// Already lowercased, like the values it is tested against.
    pub needle: String,
}

impl TextPred {
    /// A device without the field cannot match.
    pub open spec fn passes(&self, v: Option<Seq<char>>) -> bool {
        match v {
            None => false,
            Some(t) => if self.contains {
                found_in(t, self.needle@)
            } else {
                t == self.needle@
            },
        }
    }

    pub fn test(&self, v: Option<&str>) -> (r: bool)
        ensures
            r == self.passes(
                match v {
                    Some(t) => Some(t@),
                    None => None,
                },
            ),
    {
        match v {
            None => false,
            Some(t) => {
                if self.contains {
                    contains(t, self.needle.as_str())
                } else {
                    *t == *self.needle.as_str()
                }
            },
        }
    }
}

/// Which devices a scanning query looks at.
///
/// The two arms are the same query with a different candidate source: a whitelist of fifty ids
/// must not cost a pass over the fleet to answer.
#[derive(Debug, Clone, Copy)]
pub enum Candidates<'a> {
    /// Every live device, in the order of their numbers.
    All,
    /// Only these external ids, in the order given.
    ///
    /// An id that names nothing live is skipped, not an error: a vehicle expiring between the
    /// read that made the list and this query is a race, not a typo.
    Ids(&'a [String]),
}

/// What a device listing asks for beyond the predicate: which slice, and whether to carry
/// properties.
#[derive(Debug, Clone, Copy)]
pub struct Page {
    pub limit: usize,
    pub offset: usize,
    /// Properties dominate the response on a fleet that carries any, and a listing that only
    /// needs ids and positions should not pay for them.
    pub with_props: bool,
}

impl Default for Page {
    fn default() -> (p: Self)
        ensures
            p == (Page { limit: 1000, offset: 0, with_props: true }),
    {
        Page { limit: 1000, offset: 0, with_props: true }
    }
}

/// One thing to draw, at `(sx / per, sy / per)` in world coordinates.
#[derive(Debug, Clone)]
pub struct OutFeature {
    pub sx: i64,
    pub sy: i64,
    pub per: u32,
    pub count: u32,
    /// The device id, when this feature is a single point.
    pub device: Option<String>,
    /// The cluster handle, when it is not.
    pub cluster_id: Option<u64>,
    /// The device's properties, for single points. A cluster has none: forty vehicles do not
    /// share a battery level.
    pub props: Option<String>,
}

/// What an [`OutFeature`] says.
pub struct Drawn {
    pub sx: i64,
    pub sy: i64,
    pub per: u32,
    pub count: u32,
    pub device: Option<Seq<char>>,
    pub cluster_id: Option<u64>,
    pub props: Option<Seq<char>>,
}

impl OutFeature {
    pub open spec fn drawn(&self) -> Drawn {
        Drawn {
            sx: self.sx,
            sy: self.sy,
            per: self.per,
            count: self.count,
            device: maybe(self.device),
            cluster_id: self.cluster_id,
            props: maybe(self.props),
        }
    }
}

pub open spec fn drawings(v: Seq<OutFeature>) -> Seq<Drawn> {
    Seq::new(v.len(), |i: int| v[i].drawn())
}

/// The name of a device.
pub open spec fn name_of(recs: Seq<Record>, n: u64) -> Seq<char> {
    if n < recs.len() {
        recs[n as int].id
    } else {
        "?"@
    }
}

pub open spec fn props_of(recs: Seq<Record>, n: u64) -> Option<Seq<char>> {
    if n < recs.len() {
        recs[n as int].props
    } else {
        None
    }
}

/// A feature of the index, as the collection draws it.
pub open spec fn pictured(recs: Seq<Record>, f: Feature) -> Drawn {
    match f {
        Feature::Point { id, x, y } => Drawn {
            sx: x as i64,
            sy: y as i64,
            per: 1,
            count: 1,
            device: Some(name_of(recs, id)),
            cluster_id: None,
            props: props_of(recs, id),
        },
        Feature::Cluster { cluster_id, count, sx, sy } => Drawn {
            sx,
            sy,
            per: count,
            count,
            device: None,
            cluster_id: Some(cluster_id),
            props: None,
        },
    }
}

pub open spec fn pictured_all(recs: Seq<Record>, fs: Seq<Feature>) -> Seq<Drawn> {
    Seq::new(fs.len(), |i: int| pictured(recs, fs[i]))
}

/// A point placed inside a vector tile.
#[derive(Debug, Clone)]
pub struct OutTileFeature {
    pub x: i32,
    pub y: i32,
    pub count: u32,
    pub id: u64,
    pub device: Option<String>,
    pub props: Option<String>,
}

/// What an [`OutTileFeature`] says.
pub struct Tiled {
    pub x: i32,
    pub y: i32,
    pub count: u32,
    pub id: u64,
    pub device: Option<Seq<char>>,
    pub props: Option<Seq<char>>,
}

impl OutTileFeature {
    pub open spec fn tiled(&self) -> Tiled {
        Tiled {
            x: self.x,
            y: self.y,
            count: self.count,
            id: self.id,
            device: maybe(self.device),
            props: maybe(self.props),
        }
    }
}

pub open spec fn tilings(v: Seq<OutTileFeature>) -> Seq<Tiled> {
    Seq::new(v.len(), |i: int| v[i].tiled())
}

/// A feature of a tile, as the collection draws it.
pub open spec fn laid(recs: Seq<Record>, t: TileFeature) -> Tiled {
    Tiled {
        x: t.x,
        y: t.y,
        count: t.count,
        id: t.id,
        device: if t.is_cluster {
            None
        } else {
            Some(name_of(recs, t.id))
        },
        props: if t.is_cluster {
            None
        } else {
            props_of(recs, t.id)
        },
    }
}

pub open spec fn laid_all(recs: Seq<Record>, ts: Seq<TileFeature>) -> Seq<Tiled> {
    Seq::new(ts.len(), |i: int| laid(recs, ts[i]))
}

impl Collection {
    fn name_at(&self, n: u64) -> (s: String)
        ensures
            s@ == name_of(self.recs(), n),
    {
        if n < self.devices.len() as u64 {
            proof {
                assert(self.recs()[n as int].id == self.devices[n as int].id@);
            }
            self.devices[n as usize].id.clone()
        } else {
            String::from_str("?")
        }
    }

    fn props_at(&self, n: u64) -> (s: Option<String>)
        ensures
            maybe(s) == props_of(self.recs(), n),
    {
        if n < self.devices.len() as u64 {
            proof {
                assert(self.recs()[n as int].props == maybe(self.devices[n as int].props));
            }
            match &self.devices[n as usize].props {
                Some(p) => Some(p.clone()),
                None => None,
            }
        } else {
            None
        }
    }

    pub(super) fn out(&self, f: &Feature) -> (o: OutFeature)
        ensures
            o.drawn() == pictured(self.recs(), *f),
    {
        match *f {
            Feature::Point { id, x, y } => OutFeature {
                sx: x as i64,
                sy: y as i64,
                per: 1,
                count: 1,
                device: Some(self.name_at(id)),
                cluster_id: None,
                props: self.props_at(id),
            },
            Feature::Cluster { cluster_id, count, sx, sy } => OutFeature {
                sx,
                sy,
                per: count,
                count,
                device: None,
                cluster_id: Some(cluster_id),
                props: None,
            },
        }
    }

    pub(super) fn out_all(&self, fs: &Vec<Feature>) -> (v: Vec<OutFeature>)
        ensures
            drawings(v@) == pictured_all(self.recs(), fs@),
    {
        let mut v: Vec<OutFeature> = Vec::new();
        let mut i: usize = 0;
        while i < fs.len()
            invariant
                i <= fs.len(),
                v@.len() == i,
                forall|j: int| 0 <= j < i ==> (#[trigger] v@[j]).drawn() == pictured(self.recs(), fs@[j]),
            decreases fs.len() - i,
        {
            v.push(self.out(&fs[i]));
            i = i + 1;
        }
        proof {
            assert(drawings(v@) =~= pictured_all(self.recs(), fs@));
        }
        v
    }

    /// Clusters in a box of world coordinates, of one filter cell or (with -1) of all. A query
    /// that cannot match anything has none.
    pub fn clusters(&self, x0: i32, y0: i32, x1: i32, y1: i32, zoom: i32, cat: i32) -> (out: Vec<
        OutFeature,
    >)
        requires
            self.wf(),
        ensures
            cat == NO_MATCH ==> out@.len() == 0,
            cat != NO_MATCH ==> exists|fs: Seq<Feature>| #[trigger]
                self.index.sees(
                    fs,
                    cat as int,
                    zoom as int,
                    Window::of(x0 as int, y0 as int, x1 as int, y1 as int),
                ) && drawings(out@) == pictured_all(self.recs(), fs),
    {
        if cat == NO_MATCH {
            return Vec::new();
        }
        let fs = self.index.get_clusters_projected(x0, y0, x1, y1, zoom, cat);
        let out = self.out_all(&fs);
        proof {
            assert(self.index.sees(
                fs@,
                cat as int,
                zoom as int,
                Window::of(x0 as int, y0 as int, x1 as int, y1 as int),
            ) && drawings(out@) == pictured_all(self.recs(), fs@));
        }
        out
    }

    /// The contents of a tile.
    pub fn tile(&self, z: i32, x: i64, y: i64, cat: i32) -> (out: Vec<OutTileFeature>)
        requires
            self.wf(),
        ensures
            cat == NO_MATCH || !(0 <= z <= 30) ==> out@.len() == 0,
            cat != NO_MATCH && 0 <= z <= 30 ==> exists|ts: Seq<TileFeature>, fs: Seq<Feature>|
                #[trigger] tile_shows(
                    &self.index,
                    ts,
                    fs,
                    z as int,
                    x as int,
                    y as int,
                    cat as int,
                ) && tilings(out@) == laid_all(self.recs(), ts),
    {
        let mut out: Vec<OutTileFeature> = Vec::new();
        if cat == NO_MATCH {
            return out;
        }
        let ts = self.index.get_tile(z, x, y, cat);
        let mut i: usize = 0;
        while i < ts.len()
            invariant
                i <= ts.len(),
                out@.len() == i,
                forall|j: int| 0 <= j < i ==> (#[trigger] out@[j]).tiled() == laid(self.recs(), ts@[j]),
            decreases ts.len() - i,
        {
            let t = ts[i];
            let (device, props): (Option<String>, Option<String>) = if t.is_cluster {
                (None, None)
            } else {
                (Some(self.name_at(t.id)), self.props_at(t.id))
            };
            out.push(
                OutTileFeature { x: t.x, y: t.y, count: t.count, id: t.id, device, props },
            );
            i = i + 1;
        }
        proof {
            assert(tilings(out@) =~= laid_all(self.recs(), ts@));
            if 0 <= z <= 30 {
                let fs = choose|fs: Seq<Feature>| #[trigger]
                    tile_shows(&self.index, ts@, fs, z as int, x as int, y as int, cat as int);
                assert(tile_shows(
                    &self.index,
                    ts@,
                    fs,
                    z as int,
                    x as int,
                    y as int,
                    cat as int,
                ) && tilings(out@) == laid_all(self.recs(), ts@));
            }
        }
        out
    }
}

} // verus!
