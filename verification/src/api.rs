//! What a request is refused with.
use crate::text::{quote, quoted};
use vstd::prelude::*;
use vstd::string::StringExecFns;

verus! {

/// A refusal: the status, the reason in words, and a stable slug beside it.
///
/// The slug is needed because different situations share a status: a device that is not
/// registered, and a collection that does not exist. A client deciding between "return false" and
/// "raise" cannot tell those apart from the status alone, and matching on the prose would break
/// the first time it is reworded.
#[derive(Debug, Clone)]
pub struct ApiError {
    pub status: u16,
    pub message: String,
    pub code: &'static str,
}

/// What an [`ApiError`] says.
pub struct Refusal {
    pub status: u16,
    pub message: Seq<char>,
    pub code: Seq<char>,
}

impl ApiError {
    pub open spec fn refusal(&self) -> Refusal {
        Refusal { status: self.status, message: self.message@, code: self.code@ }
    }

    pub fn bad(message: String) -> (e: ApiError)
        ensures
            e.refusal() == (Refusal { status: 400, message: message@, code: "bad_request"@ }),
    {
        ApiError { status: 400, message, code: "bad_request" }
    }

    pub fn not_found(message: String) -> (e: ApiError)
        ensures
            e.refusal() == (Refusal { status: 404, message: message@, code: "not_found"@ }),
    {
        ApiError { status: 404, message, code: "not_found" }
    }

    pub fn conflict(message: String) -> (e: ApiError)
        ensures
            e.refusal() == (Refusal { status: 409, message: message@, code: "conflict"@ }),
    {
        ApiError { status: 409, message, code: "conflict" }
    }

    /// The same with another slug.
    pub fn code(self, code: &'static str) -> (e: ApiError)
        ensures
            e.refusal() == (Refusal { code: code@, ..self.refusal() }),
    {
        ApiError { status: self.status, message: self.message, code }
    }
}

/// Why a body was not accepted.
#[derive(Debug, Clone, Copy, PartialEq, Eq, Structural)]
pub enum BodyFault {
    /// It is JSON, but does not fit.
    Data,
    /// It is no JSON.
    Syntax,
    /// It does not say that it is JSON.
    ContentType,
    /// It could not be read in full.
    Bytes,
    Other,
}

/// The slug of a body that was not accepted.
pub open spec fn body_code(fault: BodyFault) -> Seq<char> {
    match fault {
        BodyFault::Data => "unprocessable_body"@,
        BodyFault::Syntax => "malformed_json"@,
        BodyFault::ContentType => "wrong_content_type"@,
        BodyFault::Bytes => "body_too_large"@,
        BodyFault::Other => "bad_body"@,
    }
}

/// A body that was not accepted, with the status and the words of whoever read it.
pub fn body_rejected(status: u16, message: String, fault: BodyFault) -> (e: ApiError)
    ensures
        e.refusal() == (Refusal { status, message: message@, code: body_code(fault) }),
{
    let code = match fault {
        BodyFault::Data => "unprocessable_body",
        BodyFault::Syntax => "malformed_json",
        BodyFault::ContentType => "wrong_content_type",
        BodyFault::Bytes => "body_too_large",
        BodyFault::Other => "bad_body",
    };
    ApiError { status, message, code }
}

/// There is no collection of this name.
pub fn no_collection(name: &str) -> (e: ApiError)
    ensures
        e.refusal() == (Refusal {
            status: 404,
            message: "no collection "@ + quoted(name@),
            code: "no_such_collection"@,
        }),
{
    let mut t = String::from_str("no collection ");
    t.append(quote(name).as_str());
    ApiError::not_found(t).code("no_such_collection")
}

/// A collection knows of no such device.
pub fn not_registered(id: &str, name: &str) -> (e: ApiError)
    ensures
        e.refusal() == (Refusal {
            status: 404,
            message: "device "@ + quoted(id@) + " is not registered in "@ + quoted(name@),
            code: "device_not_registered"@,
        }),
{
    let mut t = String::from_str("device ");
    t.append(quote(id).as_str());
    t.append(" is not registered in ");
    t.append(quote(name).as_str());
    ApiError::not_found(t).code("device_not_registered")
}

/// A device that is not there has no marker.
pub fn not_drawn(id: &str, name: &str) -> (e: ApiError)
    ensures
        e.refusal() == (Refusal {
            status: 404,
            message: "device "@ + quoted(id@) + " is not in "@ + quoted(name@),
            code: "device_not_registered"@,
        }),
{
    let mut t = String::from_str("device ");
    t.append(quote(id).as_str());
    t.append(" is not in ");
    t.append(quote(name).as_str());
    ApiError::not_found(t).code("device_not_registered")
}

/// A bad request, with its slug.
pub open spec fn refused(message: Seq<char>, code: Seq<char>) -> Refusal {
    Refusal { status: 400, message, code }
}

} // verus!
