//! What a query asks of a collection, and the answer.
use crate::api::{ApiError, Refusal};
use crate::collection::query::{drawings, pictured_all, Candidates, OutFeature, Page, TextPred};
use crate::collection::select::{boxed, matching, paged};
use crate::collection::{Collection, NO_MATCH};
use crate::feature::Feature;
use crate::clusters::Window;
use crate::request::{filter_meant, ids_meant, names_differ, parse_filter, parse_ids, parse_where,
    search_meant, wanted_all, Wanted, MAX_IDS};
use vstd::prelude::*;

verus! {

/// What a query selects: a filter cell, search terms, and devices by id.
#[derive(Debug, Clone)]
pub struct Selection {
    pub cat: i32,
    pub preds: Vec<TextPred>,
    pub ids: Option<Vec<String>>,
}

impl Selection {
    /// Whether every device of the filter cell is selected, so that the precomputed aggregates
    /// answer.
    pub open spec fn plain(&self) -> bool {
        self.preds.len() == 0 && self.ids is None
    }

    /// The devices to look at.
    pub open spec fn looks_at(&self, cands: Candidates) -> bool {
        match (self.ids, cands) {
            (None, Candidates::All) => true,
            (Some(v), Candidates::Ids(s)) => s@ == v@,
            _ => false,
        }
    }

    /// A selection that a collection can answer.
    pub open spec fn fits(&self, c: Collection) -> bool {
        &&& c.searchable(self.preds@)
        &&& self.ids matches Some(v) ==> v.len() <= MAX_IDS
    }

    fn candidates(&self) -> (cands: Candidates<'_>)
        ensures
            self.looks_at(cands),
    {
        match &self.ids {
            None => Candidates::All,
            Some(v) => Candidates::Ids(v.as_slice()),
        }
    }
}

/// What a query selects. A filter that is refused is told of first, then a search, then a list of
/// ids.
pub fn parse_selection(c: &Collection, q: &Vec<(String, String)>) -> (r: Result<
    Selection,
    ApiError,
>)
    requires
        c.sound(),
        names_differ(q@),
    ensures
        match r {
            Ok(s) => {
                &&& filter_meant(*c, q@, Ok(s.cat))
                &&& search_meant(*c, q@) == Ok::<Seq<Wanted>, Refusal>(wanted_all(s.preds@))
                &&& ids_meant(q@, Ok(s.ids))
                &&& s.fits(*c)
            },
            Err(e) => {
                ||| filter_meant(*c, q@, Err(e))
                ||| (exists|cat: i32| #[trigger] filter_meant(*c, q@, Ok(cat))) && (search_meant(*c, q@)
                    == Err::<Seq<Wanted>, Refusal>(e.refusal()) || search_meant(*c, q@) is Ok && ids_meant(
                    q@,
                    Err(e),
                ))
            },
        },
{
    let cat = match parse_filter(c, q) {
        Ok(cat) => cat,
        Err(e) => {
            return Err(e);
        },
    };
    let preds = match parse_where(c, q) {
        Ok(preds) => preds,
        Err(e) => {
            return Err(e);
        },
    };
    match parse_ids(q) {
        Ok(ids) => Ok(Selection { cat, preds, ids }),
        Err(e) => Err(e),
    }
}

/// What a selection looks like on the map: the plain ones as the tree has them, any other built
/// from the devices that it names and that match.
pub open spec fn drawn(
    c: Collection,
    s: Selection,
    w: Window,
    zoom: int,
    out: Seq<OutFeature>,
) -> bool {
    if s.cat == NO_MATCH {
        out.len() == 0
    } else if s.plain() {
        exists|fs: Seq<Feature>| #[trigger]
            c.index.sees(fs, s.cat as int, zoom, w) && drawings(out) == pictured_all(c.recs(), fs)
    } else {
        exists|cands: Candidates| #[trigger]
            s.looks_at(cands) && drawings(out) == c.selection(w, zoom, s.cat, s.preds@, cands)
    }
}

/// The markers of a selection in a box.
///
/// Two paths on purpose. A plain selection reads precomputed aggregates; with a search or a list
/// of ids it scans, and that is the only way a substring can be answered exactly.
pub fn markers(
    c: &Collection,
    s: &Selection,
    x0: i32,
    y0: i32,
    x1: i32,
    y1: i32,
    zoom: i32,
) -> (out: Vec<OutFeature>)
    requires
        c.wf(),
        c.devices.len() <= u32::MAX,
        s.fits(*c),
    ensures
        drawn(
            *c,
            *s,
            Window::of(x0 as int, y0 as int, x1 as int, y1 as int),
            zoom as int,
            out@,
        ),
{
    if s.preds.len() == 0 && s.ids.is_none() {
        c.clusters(x0, y0, x1, y1, zoom, s.cat)
    } else {
        let cands = s.candidates();
        let out = c.select_clusters(x0, y0, x1, y1, zoom, s.cat, s.preds.as_slice(), cands);
        proof {
            assert(s.looks_at(cands));
        }
        out
    }
}

/// The devices of a selection in a box, one by one: the page asked for, and how many there are in
/// all.
pub fn listing(
    c: &Collection,
    s: &Selection,
    x0: i32,
    y0: i32,
    x1: i32,
    y1: i32,
    page: Page,
) -> (r: (Vec<OutFeature>, usize))
    requires
        c.wf(),
        s.fits(*c),
    ensures
        s.cat == NO_MATCH ==> r.0@.len() == 0 && r.1 == 0,
        s.cat != NO_MATCH ==> exists|cands: Candidates| #[trigger]
            s.looks_at(cands) && {
                let q = matching(c.recs(), cands, s.cat, s.preds@);
                let b = boxed(
                    c.recs(),
                    q,
                    Window::of(x0 as int, y0 as int, x1 as int, y1 as int),
                    q.len() as int,
                );
                r.1 == b.len() && drawings(r.0@) == paged(c.recs(), b, page)
            },
{
    let cands = s.candidates();
    let r = c.list_devices(x0, y0, x1, y1, s.cat, s.preds.as_slice(), cands, page);
    proof {
        assert(s.looks_at(cands));
    }
    r
}

} // verus!
