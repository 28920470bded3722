//! The plain core of the presign client: the request key its cache is
//! indexed by, and the mapping between storage operations and HTTP
//! methods. The cache, the HTTP transport and the JSON framing live
//! outside the library.

use vstd::prelude::*;
use vstd::string::StringExecFns;

verus! {

/// A storage operation a presigned request stands for.
#[derive(Clone, Copy, Debug, PartialEq, Eq, Hash, Structural)]
pub enum Operation {
    Read,
    Write,
    Stat,
    Delete,
}

/// A request to be signed: the object's path and the operation.
#[derive(Clone, Debug)]
pub struct PresignRequest {
    pub path: String,
    pub op: Operation,
}

impl PresignRequest {
    /// Create a new request key.
    pub fn new(path: &str, op: Operation) -> (r: PresignRequest)
        ensures
            r.path@ == path@,
            r.op == op,
    {
        PresignRequest { path: String::from_str(path), op }
    }
}

/// The HTTP method a read maps to; no other operation is presigned.
pub fn to_method(op: Operation) -> (r: String)
    requires
        op == Operation::Read,
    ensures
        r@ == "GET"@,
{
    String::from_str("GET")
}

/// The operation an HTTP method maps back to; only reads come back.
pub fn from_method(method: &str) -> (r: Operation)
    requires
        method@ == "GET"@,
    ensures
        r == Operation::Read,
{
    Operation::Read
}

} // verus!
