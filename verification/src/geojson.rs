//! What a GeoJSON body means, once it is read.
//!
//! Unknown keys are ignored rather than rejected: foreign members are explicitly allowed on a
//! Feature, so real files carry them and refusing them would reject valid GeoJSON.
use crate::text::{integer, number, push_integer, push_number, quote, quoted, trim, trimmed};
use vstd::prelude::*;
use vstd::string::StringExecFns;

verus! {

/// A GeoJSON id, normalised to the text that devices are keyed by.
///
/// GeoJSON allows a string or a number. A number becomes its decimal form, so `7` and `"7"` are
/// the same device, which is what anyone round-tripping a file through an encoder that
/// stringifies ids would expect.
#[derive(Debug, Clone)]
pub struct IdString(pub String);

impl IdString {
    pub fn from_text(v: &str) -> (r: IdString)
        ensures
            r.0@ == v@,
    {
        IdString(String::from_str(v))
    }

    pub fn from_signed(v: i64) -> (r: IdString)
        ensures
            r.0@ == integer(v as int),
    {
        let mut s = String::new();
        push_integer(&mut s, v);
        proof {
            assert(s@ =~= integer(v as int));
        }
        IdString(s)
    }

    pub fn from_unsigned(v: u64) -> (r: IdString)
        ensures
            r.0@ == number(v as int),
    {
        let mut s = String::new();
        push_number(&mut s, v);
        proof {
            assert(s@ =~= number(v as int));
        }
        IdString(s)
    }

    /// The id of a number with a point in it: `whole` is its value, if it is a whole number that
    /// is held exactly, and `shown` how it is written. A fractional id is a bug, not a device.
    pub fn from_real(whole: Option<i64>, shown: &str) -> (r: Result<IdString, String>)
        ensures
            match (whole, r) {
                (Some(v), Ok(id)) => id.0@ == integer(v as int),
                (None, Err(e)) => e@ == "id "@ + shown@ + " is not a whole number"@,
                _ => false,
            },
    {
        match whole {
            Some(v) => Ok(IdString::from_signed(v)),
            None => {
                let mut e = String::from_str("id ");
                e.append(shown);
                e.append(" is not a whole number");
                Err(e)
            },
        }
    }

    /// Why a truth value is no id.
    pub fn not_a_flag(v: bool) -> (e: String)
        ensures
            e@ == "id is "@ + (if v {
                "true"@
            } else {
                "false"@
            }) + ", expected a string or a number"@,
    {
        let mut e = String::from_str("id is ");
        e.append(
            if v {
                "true"
            } else {
                "false"
            },
        );
        e.append(", expected a string or a number");
        e
    }
}

/// A category as it may appear in `properties`: the index itself, or the name declared on the
/// collection.
#[derive(Debug, Clone)]
pub enum CatVal {
    Num(u32),
    Name(String),
}

impl CatVal {
    /// How the category is written.
    pub open spec fn shown(&self) -> Seq<char> {
        match *self {
            CatVal::Num(n) => number(n as int),
            CatVal::Name(s) => s@,
        }
    }

    pub fn from_text(v: &str) -> (r: CatVal)
        ensures
            r matches CatVal::Name(s) && s@ == v@,
    {
        CatVal::Name(String::from_str(v))
    }

    pub fn from_unsigned(v: u64) -> (r: CatVal)
        ensures
            r == CatVal::Num(v as u32),
    {
        CatVal::Num(v as u32)
    }

    pub fn from_signed(v: i64) -> (r: Result<CatVal, String>)
        ensures
            match r {
                Ok(c) => v >= 0 && c == CatVal::Num(v as u32),
                Err(e) => v < 0 && e@ == "category "@ + integer(v as int) + " is negative"@,
            },
    {
        if v < 0 {
            let mut e = String::from_str("category ");
            push_integer(&mut e, v);
            e.append(" is negative");
            return Err(e);
        }
        Ok(CatVal::Num(v as u32))
    }

    /// The category of a number with a point in it: `index` is its value, if it is whole and not
    /// negative, and `shown` how it is written.
    pub fn from_real(index: Option<u32>, shown: &str) -> (r: Result<CatVal, String>)
        ensures
            match (index, r) {
                (Some(n), Ok(c)) => c == CatVal::Num(n),
                (None, Err(e)) => e@ == "category "@ + shown@ + " is not a whole number"@,
                _ => false,
            },
    {
        match index {
            Some(n) => Ok(CatVal::Num(n)),
            None => {
                let mut e = String::from_str("category ");
                e.append(shown);
                e.append(" is not a whole number");
                Err(e)
            },
        }
    }

    /// The category as a filter value.
    pub fn label(&self) -> (s: String)
        ensures
            s@ == self.shown(),
    {
        match self {
            CatVal::Num(n) => {
                let mut s = String::new();
                push_number(&mut s, *n as u64);
                proof {
                    assert(s@ =~= number(*n as int));
                }
                s
            },
            CatVal::Name(t) => t.clone(),
        }
    }
}

/// Which of the properties that are looked for a key turned out to be.
#[derive(Debug, Clone, Copy, PartialEq, Eq, Structural)]
pub enum Which {
    Id,
    /// The category key at this place among those that are looked for.
    Cat(usize),
    Other,
}

/// Picks at most an id and a category out of a properties object, key by key.
///
/// The category keys are ordered by preference: the earliest one present wins, so a collection
/// can accept `cat` while still reading `category` from files that use the longer name. A key
/// that cannot win any more is stepped over.
pub struct Picker<'a> {
    pub id_key: Option<&'a str>,
    pub cat_keys: &'a [&'a str],
    pub id: Option<String>,
    pub cat: Option<CatVal>,
    /// The place of the category key that was used.
    pub rank: usize,
}

/// Where a key stands in a list, from `i` on.
pub open spec fn key_at(keys: Seq<&str>, key: Seq<char>, i: int) -> int
    decreases keys.len() - i,
{
    if i >= keys.len() || keys[i]@ == key {
        i
    } else {
        key_at(keys, key, i + 1)
    }
}

/// A category that was offered under a key, for what a [`Picker`] made of it.
pub struct Offer {
    pub place: int,
    pub value: Option<CatVal>,
}

/// The category after one more offer, and the place of the key it came from.
pub open spec fn preferred(now: (Option<CatVal>, int), o: Offer) -> (Option<CatVal>, int) {
    if o.place < now.1 && o.value is Some {
        (o.value, o.place)
    } else {
        now
    }
}

/// The category after the first `k` offers, and the place of the key it came from.
pub open spec fn chosen_cat(q: Seq<Offer>, k: int) -> (Option<CatVal>, int)
    decreases k,
{
    if k <= 0 {
        (None, usize::MAX as int)
    } else {
        preferred(chosen_cat(q, k - 1), q[k - 1])
    }
}

/// **The earliest listed key wins**, in whatever order the keys arrive: the category is that of
/// an offer that no offer beats, and there is none only if none was offered.
pub proof fn law_earliest_key_wins(q: Seq<Offer>, k: int)
    requires
        0 <= k <= q.len(),
        forall|i: int| 0 <= i < q.len() ==> 0 <= (#[trigger] q[i]).place < usize::MAX,
    ensures
        ({
            let (cat, rank) = chosen_cat(q, k);
            &&& cat is None ==> rank == usize::MAX
            &&& forall|i: int|
                0 <= i < k && (#[trigger] q[i]).value is Some ==> cat is Some && rank <= q[i].place
            &&& cat is Some ==> exists|i: int|
                0 <= i < k && (#[trigger] q[i]).place == rank && q[i].value == cat
        }),
    decreases k,
{
    if k > 0 {
        law_earliest_key_wins(q, k - 1);
        let (cat, rank) = chosen_cat(q, k - 1);
        if q[k - 1].place < rank && q[k - 1].value is Some {
            assert(q[k - 1].place == chosen_cat(q, k).1);
        } else if cat is Some {
            let i = choose|i: int|
                0 <= i < k - 1 && (#[trigger] q[i]).place == rank && q[i].value == cat;
            assert(q[i].value == chosen_cat(q, k).0);
        }
    }
}

impl<'a> Picker<'a> {
    pub fn new(id_key: Option<&'a str>, cat_keys: &'a [&'a str]) -> (p: Picker<'a>)
        ensures
            p.id_key == id_key,
            p.cat_keys == cat_keys,
            p.id is None,
            (p.cat, p.rank as int) == chosen_cat(seq![], 0),
    {
        Picker { id_key, cat_keys, id: None, cat: None, rank: usize::MAX }
    }

    /// What to do with the value of a key.
    pub fn classify(&self, key: &str) -> (w: Which)
        ensures
            w == (if self.id_key matches Some(k) && k@ == key@ {
                Which::Id
            } else {
                let i = key_at(self.cat_keys@, key@, 0);
                if i < self.cat_keys@.len() && i < self.rank {
                    Which::Cat(i as usize)
                } else {
                    Which::Other
                }
            }),
    {
        if let Some(k) = self.id_key {
            if *k == *key {
                return Which::Id;
            }
        }
        let mut i: usize = 0;
        while i < self.cat_keys.len() && *self.cat_keys[i] != *key
            invariant
                i <= self.cat_keys@.len(),
                key_at(self.cat_keys@, key@, 0) == key_at(self.cat_keys@, key@, i as int),
            decreases self.cat_keys@.len() - i,
        {
            i = i + 1;
        }
        if i < self.cat_keys.len() && i < self.rank {
            Which::Cat(i)
        } else {
            Which::Other
        }
    }

    /// The id key had this value; present but null is the same as absent.
    pub fn saw_id(&mut self, v: Option<IdString>)
        ensures
            match v {
                Some(s) => final(self).id == Some(s.0),
                None => final(self).id is None,
            },
            final(self).id_key == old(self).id_key,
            final(self).cat_keys == old(self).cat_keys,
            final(self).cat == old(self).cat,
            final(self).rank == old(self).rank,
    {
        self.id = match v {
            Some(s) => Some(s.0),
            None => None,
        };
    }

    /// The category key at a place had this value; present but null is the same as absent.
    pub fn saw_cat(&mut self, place: usize, v: Option<CatVal>)
        ensures
            (final(self).cat, final(self).rank as int) == preferred(
                (old(self).cat, old(self).rank as int),
                Offer { place: place as int, value: v },
            ),
            final(self).id_key == old(self).id_key,
            final(self).cat_keys == old(self).cat_keys,
            final(self).id == old(self).id,
    {
        if place < self.rank {
            match v {
                Some(c) => {
                    self.cat = Some(c);
                    self.rank = place;
                },
                None => {},
            }
        }
    }
}

/// What is wrong with a geometry: its type, or its coordinates. `pair` says whether those are a
/// pair of numbers.
pub open spec fn geometry_fault(ty: Option<Seq<char>>, pair: Option<bool>) -> Option<Seq<char>> {
    match ty {
        None => Some("geometry has no type"@),
        Some(t) => if t != "Point"@ {
            Some(
                "geometry is a "@ + t
                    + ", expected a Point -- reduce areas and lines to a representative point before sending them"@,
            )
        } else {
            match pair {
                None => Some("Point geometry has no coordinates"@),
                Some(false) => Some(
                    "Point coordinates are not a [longitude, latitude] pair of numbers"@,
                ),
                Some(true) => None,
            }
        },
    }
}

pub open spec fn told(s: Option<&str>) -> Option<Seq<char>> {
    match s {
        Some(t) => Some(t@),
        None => None,
    }
}

pub open spec fn kept(s: Option<String>) -> Option<Seq<char>> {
    match s {
        Some(t) => Some(t@),
        None => None,
    }
}

/// Judge a geometry when all of it is read: its keys come in any order. Anything but a point is
/// rejected rather than quietly reduced to a centroid: a silently misplaced polygon is a wrong
/// map with no error.
pub fn check_geometry(ty: Option<&str>, pair: Option<bool>) -> (r: Option<String>)
    ensures
        kept(r) == geometry_fault(told(ty), pair),
{
    match ty {
        None => Some(String::from_str("geometry has no type")),
        Some(t) => {
            if *t != *"Point" {
                let mut e = String::from_str("geometry is a ");
                e.append(t);
                e.append(
                    ", expected a Point -- reduce areas and lines to a representative point before sending them",
                );
                Some(e)
            } else {
                match pair {
                    None => Some(String::from_str("Point geometry has no coordinates")),
                    Some(false) => Some(
                        String::from_str(
                            "Point coordinates are not a [longitude, latitude] pair of numbers",
                        ),
                    ),
                    Some(true) => None,
                }
            }
        },
    }
}

/// What is wrong with a Feature: its type, or that it has no geometry.
pub open spec fn feature_fault(ty: Option<Seq<char>>, saw_geometry: bool) -> Option<Seq<char>> {
    if ty matches Some(t) && t != "Feature"@ {
        if ty->0 == "FeatureCollection"@ {
            Some("a FeatureCollection nested inside features"@)
        } else {
            Some("type is "@ + quoted(ty->0) + ", expected \"Feature\""@)
        }
    } else if !saw_geometry {
        Some("Feature has no geometry"@)
    } else {
        None
    }
}

/// Judge a Feature when all of it is read.
pub fn check_feature(ty: Option<&str>, saw_geometry: bool) -> (r: Option<String>)
    ensures
        kept(r) == feature_fault(told(ty), saw_geometry),
{
    if let Some(t) = ty {
        if *t != *"Feature" {
            if *t == *"FeatureCollection" {
                return Some(String::from_str("a FeatureCollection nested inside features"));
            }
            let mut e = String::from_str("type is ");
            e.append(quote(t).as_str());
            e.append(", expected \"Feature\"");
            return Some(e);
        }
    }
    if !saw_geometry {
        return Some(String::from_str("Feature has no geometry"));
    }
    None
}

/// The properties that a Feature gives. `null` is GeoJSON for "none", which means "leave whatever
/// is stored alone"; an empty object still clears.
pub fn given_props(raw: Option<String>) -> (r: Option<String>)
    ensures
        r == (if raw matches Some(p) && trimmed(p@) == "null"@ {
            None
        } else {
            raw
        }),
{
    match raw {
        None => None,
        Some(p) => {
            if *trim(p.as_str()).as_str() == *"null" {
                None
            } else {
                Some(p)
            }
        },
    }
}

/// The two forms of a body of positions.
#[derive(Debug, Clone, Copy, PartialEq, Eq, Structural)]
pub enum BodyForm {
    Compact,
    Geo,
}

/// Which form a body with these keys has. `features` alone settles that it is GeoJSON, so key
/// order does not matter and a FeatureCollection missing its `type` still works.
pub fn body_form(points: bool, features: bool) -> (r: Result<BodyForm, String>)
    ensures
        match r {
            Ok(f) => points != features && f == (if points {
                BodyForm::Compact
            } else {
                BodyForm::Geo
            }),
            Err(e) => points == features && e@ == (if points {
                "the body has both `points` and `features`; send one form or the other"@
            } else {
                "the body has neither a `points` array nor a GeoJSON `features` array"@
            }),
        },
{
    if points && features {
        Err(
            String::from_str(
                "the body has both `points` and `features`; send one form or the other",
            ),
        )
    } else if points {
        Ok(BodyForm::Compact)
    } else if features {
        Ok(BodyForm::Geo)
    } else {
        Err(
            String::from_str(
                "the body has neither a `points` array nor a GeoJSON `features` array",
            ),
        )
    }
}

/// Judge the `type` of a body.
pub fn check_body_type(t: &str) -> (r: Option<String>)
    ensures
        kept(r) == (if t@ == "FeatureCollection"@ {
            None
        } else {
            Some(
                "type is "@ + quoted(t@)
                    + "; /positions takes a FeatureCollection, an array of reports, or {\"points\": [...]}"@,
            )
        }),
{
    if *t == *"FeatureCollection" {
        None
    } else {
        let mut e = String::from_str("type is ");
        e.append(quote(t).as_str());
        e.append(
            "; /positions takes a FeatureCollection, an array of reports, or {\"points\": [...]}",
        );
        Some(e)
    }
}

} // verus!
