//! Reading the members of a properties object.
//!
//! Properties are kept as the text they came in. Where a value has to come out of them the text
//! is read once, as an object, and only its scalars matter.
use crate::text::{lowercase, lowercased, texts};
use vstd::prelude::*;

verus! {

/// A member's value. A number comes with its value as an unsigned integer, if it is one, and as it
/// is written. Nested values are not looked into.
#[derive(Debug, Clone, PartialEq)]
pub enum Scalar {
    Null,
    Bool(bool),
    Number(Option<u64>, String),
    Text(String),
    Nested,
}

/// What a [`Scalar`] says.
pub enum Member {
    Null,
    Bool(bool),
    Number(Option<u64>, Seq<char>),
    Text(Seq<char>),
    Nested,
}

impl Scalar {
    pub open spec fn member(&self) -> Member {
        match *self {
            Scalar::Null => Member::Null,
            Scalar::Bool(b) => Member::Bool(b),
            Scalar::Number(n, s) => Member::Number(n, s@),
            Scalar::Text(s) => Member::Text(s@),
            Scalar::Nested => Member::Nested,
        }
    }
}

/// Names and values of the members of an object.
pub open spec fn members_of(v: Seq<(String, Scalar)>) -> Seq<(Seq<char>, Member)> {
    Seq::new(v.len(), |i: int| (v[i].0@, v[i].1.member()))
}

/// What a text holds as an object: its members, or what is wrong with it.
pub uninterp spec fn json_members(raw: Seq<char>) -> Result<
    Seq<(Seq<char>, Member)>,
    Seq<char>,
>;

/// `serde_json::from_str` into a `serde_json::Map`: the members of an object in the map's order,
/// or the error in words. Both depend on the text alone. What the members of a given text are is
/// left unsaid.
#[verifier::external_body]
pub(crate) fn members(raw: &str) -> (r: Result<Vec<(String, Scalar)>, String>)
    ensures
        match r {
            Ok(v) => json_members(raw@) == Ok::<Seq<(Seq<char>, Member)>, Seq<char>>(
                members_of(v@),
            ),
            Err(e) => json_members(raw@) == Err::<Seq<(Seq<char>, Member)>, Seq<char>>(e@),
        },
{
    let map: serde_json::Map<String, serde_json::Value> =
        serde_json::from_str(raw).map_err(|e| e.to_string())?;
    Ok(map.into_iter().map(|(k, v)| (k, match v {
        serde_json::Value::Null => Scalar::Null,
        serde_json::Value::Bool(b) => Scalar::Bool(b),
        serde_json::Value::Number(n) => Scalar::Number(n.as_u64(), n.to_string()),
        serde_json::Value::String(s) => Scalar::Text(s),
        serde_json::Value::Array(_) => Scalar::Nested,
        serde_json::Value::Object(_) => Scalar::Nested,
    })).collect())
}

/// Whether a text is JSON.
pub uninterp spec fn json_valid(raw: Seq<char>) -> bool;

/// `serde_json::value::RawValue::from_string`: whether a text is JSON depends on the text alone.
/// Which texts are is left unsaid.
#[verifier::external_body]
pub(crate) fn is_json(raw: &str) -> (r: bool)
    ensures
        r == json_valid(raw@),
{
    serde_json::value::RawValue::from_string(raw.to_owned()).is_ok()
}

/// Where the member called `name` is.
pub open spec fn member_at(q: Seq<(Seq<char>, Member)>, name: Seq<char>, i: int) -> int
    decreases q.len() - i,
{
    if i >= q.len() {
        -1
    } else if q[i].0 == name {
        i
    } else {
        member_at(q, name, i + 1)
    }
}

/// The searchable text of a member: in lower case, if it is text.
pub open spec fn field_of(q: Seq<(Seq<char>, Member)>, name: Seq<char>) -> Option<Seq<char>> {
    let i = member_at(q, name, 0);
    if i < 0 {
        None
    } else {
        match q[i].1 {
            Member::Text(s) => Some(lowercased(s)),
            _ => None,
        }
    }
}

pub open spec fn fields_of(q: Seq<(Seq<char>, Member)>, names: Seq<Seq<char>>) -> Seq<
    Option<Seq<char>>,
> {
    Seq::new(names.len(), |i: int| field_of(q, names[i]))
}

/// Optional texts.
pub open spec fn maybes(v: Seq<Option<String>>) -> Seq<Option<Seq<char>>> {
    Seq::new(
        v.len(),
        |i: int|
            match v[i] {
                Some(s) => Some(s@),
                None => None,
            },
    )
}

/// The searchable fields of some members, lowercased once so that a query never has to.
pub fn pick_fields(v: &Vec<(String, Scalar)>, names: &Vec<String>) -> (r: Vec<Option<String>>)
    ensures
        maybes(r@) == fields_of(members_of(v@), texts(names@)),
{
    let ghost q = members_of(v@);
    let mut out: Vec<Option<String>> = Vec::new();
    let mut i: usize = 0;
    while i < names.len()
        invariant
            i <= names.len(),
            q == members_of(v@),
            out@.len() == i,
            forall|k: int|
                0 <= k < i ==> (match #[trigger] out@[k] {
                    Some(s) => Some(s@),
                    None => None,
                }) == field_of(q, names@[k]@),
        decreases names.len() - i,
    {
        let name = names[i].as_str();
        let mut j: usize = 0;
        while j < v.len() && *v[j].0.as_str() != *name
            invariant
                j <= v.len(),
                q == members_of(v@),
                member_at(q, name@, 0) == member_at(q, name@, j as int),
            decreases v.len() - j,
        {
            j = j + 1;
        }
        let got: Option<String> = if j < v.len() {
            match &v[j].1 {
                Scalar::Text(s) => Some(lowercase(s.as_str())),
                _ => None,
            }
        } else {
            None
        };
        out.push(got);
        i = i + 1;
    }
    proof {
        assert(maybes(out@) =~= fields_of(q, texts(names@)));
    }
    out
}

} // verus!
