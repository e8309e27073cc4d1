//! Refusals of a request: what is said, and where in the request it points.
use vstd::prelude::*;

use crate::numeral;
use crate::numeral::decimal;

verus! {

/// A refused request. `status` is an HTTP status; `path` points at the
/// offending place of the request body as a JSON Pointer.
#[derive(Debug)]
pub struct ApiError {
    pub status: u16,
    pub code: &'static str,
    pub message: String,
    pub path: String,
}

/// A refusal as a mathematical value.
pub struct Fault {
    pub status: u16,
    pub code: Seq<char>,
    pub message: Seq<char>,
    pub path: Seq<char>,
}

/// The refusal of a malformed request.
pub open spec fn bad(message: Seq<char>, path: Seq<char>) -> Fault {
    Fault { status: 400, code: "bad_request"@, message, path }
}

/// The refusal of a request that does not fit the rows.
pub open spec fn clash(message: Seq<char>, path: Seq<char>) -> Fault {
    Fault { status: 409, code: "conflict"@, message, path }
}

impl View for ApiError {
    type V = Fault;

    open spec fn view(&self) -> Fault {
        Fault {
            status: self.status,
            code: self.code@,
            message: self.message@,
            path: self.path@,
        }
    }
}

impl ApiError {
    /// The request is malformed.
    pub fn bad_request(message: &str, path: &str) -> (r: Self)
        ensures
            r@ == bad(message@, path@),
    {
        ApiError {
            status: 400,
            code: "bad_request",
            message: message.to_owned(),
            path: path.to_owned(),
        }
    }

    /// The request does not fit the rows.
    pub fn conflict(message: &str, path: &str) -> (r: Self)
        ensures
            r@ == clash(message@, path@),
    {
        ApiError {
            status: 409,
            code: "conflict",
            message: message.to_owned(),
            path: path.to_owned(),
        }
    }
}

/// A text between double quotes with special characters escaped, as the
/// standard library's `Debug` form of `str` writes it.
pub uninterp spec fn quoted(s: Seq<char>) -> Seq<char>;

/// Calls the `Debug` form of `str` through `format!`. Claims only that the
/// result is a function of the text; which characters are escaped, and how, is
/// not stated.
#[verifier::external_body]
pub(crate) fn quote(s: &str) -> (r: String)
    ensures
        r@ == quoted(s@),
{
    format!("{:?}", s)
}

/// One text after another.
pub fn join(a: &str, b: &str) -> (r: String)
    ensures
        r@ == a@ + b@,
{
    let mut r = a.to_owned();
    r.append(b);
    r
}

/// The place below `path` that a name leads to.
pub open spec fn child(path: Seq<char>, name: Seq<char>) -> Seq<char> {
    path + seq!['/'] + name
}

/// The place of an item of the list at `path`.
pub open spec fn item(path: Seq<char>, i: nat) -> Seq<char> {
    child(path, numeral::dec_text(i))
}

/// Writes the place below `path` that a name leads to.
pub fn child_path(path: &str, name: &str) -> (r: String)
    ensures
        r@ == child(path@, name@),
{
    let mut r = path.to_owned();
    r.push('/');
    r.append(name);
    assert(r@ =~= child(path@, name@));
    r
}

/// Writes the place of an item of the list at `path`.
pub fn item_path(path: &str, i: usize) -> (r: String)
    ensures
        r@ == item(path@, i as nat),
{
    child_path(path, decimal(i as u64).as_str())
}

/// A malformed request is answered with 400, one that does not fit with 409, and
/// a place in a request is named by the keys and indices that lead to it.
pub proof fn law_refusals(
    message: Seq<char>,
    path: Seq<char>,
    name: Seq<char>,
    i: nat,
    e: ApiError,
)
    ensures
        e@ == (Fault { status: e.status, code: e.code@, message: e.message@, path: e.path@ }),
        bad(message, path) == (Fault { status: 400, code: "bad_request"@, message, path }),
        clash(message, path) == (Fault { status: 409, code: "conflict"@, message, path }),
        child(path, name) == path + seq!['/'] + name,
        item(path, i) == path + seq!['/'] + numeral::dec_text(i),
{
}

} // verus!
