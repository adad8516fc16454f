//! Plain request and response descriptors, and the failure values that a
//! handler or middleware may return.
//!
//! The router never touches sockets: the host hands it an already-parsed
//! request (method and path) and receives back a response descriptor
//! (status and body), which the host serializes to the wire.

use vstd::prelude::*;

verus! {

/// An already-parsed incoming request: its method and its path.
#[derive(Clone, Debug)]
pub struct Request {
    pub method: String,
    pub path: String,
}

impl Request {
    /// Builds a request descriptor from a method name and a path.
    pub fn new(method: String, path: String) -> (r: Request)
        ensures
            r.method@ == method@,
            r.path@ == path@,
    {
        Request { method, path }
    }

    /// The request method, e.g. `"GET"`.
    pub fn method(&self) -> (r: &str)
        ensures
            r@ == self.method@,
    {
        self.method.as_str()
    }

    /// The request path, e.g. `"/users/42"`.
    pub fn path(&self) -> (r: &str)
        ensures
            r@ == self.path@,
    {
        self.path.as_str()
    }
}

/// A response descriptor: a status code and a body. Turning it into bytes
/// on the wire is the host's job.
#[derive(Clone, Debug)]
pub struct Response {
    pub status: u16,
    pub body: String,
}

impl Response {
    /// An empty successful response: status 200, empty body.
    pub fn new() -> (r: Response)
        ensures
            r.status == 200u16,
            r.body@ == Seq::<char>::empty(),
    {
        Response { status: 200, body: String::new() }
    }

    /// The same response with the given body.
    pub fn with_body(self, body: String) -> (r: Response)
        ensures
            r.status == self.status,
            r.body@ == body@,
    {
        Response { status: self.status, body }
    }

    /// The same response with the given status code.
    pub fn with_status(self, status: u16) -> (r: Response)
        ensures
            r.status == status,
            r.body@ == self.body@,
    {
        Response { status, body: self.body }
    }

    /// The status code.
    pub fn status(&self) -> (r: u16)
        ensures
            r == self.status,
    {
        self.status
    }

    /// The body.
    pub fn body(&self) -> (r: &str)
        ensures
            r@ == self.body@,
    {
        self.body.as_str()
    }

    /// The response that dispatch returns when no route matches: status
    /// 404, body `"404"`, distinguishable from any successful response.
    pub fn not_found() -> (r: Response)
        ensures
            is_not_found(r),
    {
        Response { status: 404, body: String::from_str("404") }
    }
}

/// Whether a response is the not-found response: status 404 with body
/// `"404"`.
pub open spec fn is_not_found(r: Response) -> bool {
    r.status == 404u16 && r.body@ == "404"@
}

/// A failure returned by a handler or by a middleware, or a configuration
/// conflict detected while a route is registered. Failures propagate
/// unchanged through the middleware chain; rendering them for the wire is
/// the host's job.
#[derive(Clone, Debug)]
pub enum Failure {
    /// A handler failed; carries its message.
    Handler(String),
    /// A middleware failed; carries its message.
    Middleware(String),
    /// A pattern registration conflicted with an earlier one: a second,
    /// differently-named wildcard at the same node; carries the rejected
    /// wildcard segment.
    Config(String),
}

impl Failure {
    /// The message carried by the failure.
    pub fn message(&self) -> (r: &str)
        ensures
            r@ == spec_message(*self),
    {
        match self {
            Failure::Handler(m) => m.as_str(),
            Failure::Middleware(m) => m.as_str(),
            Failure::Config(m) => m.as_str(),
        }
    }
}

/// The message carried by a failure.
pub open spec fn spec_message(f: Failure) -> Seq<char> {
    match f {
        Failure::Handler(m) => m@,
        Failure::Middleware(m) => m@,
        Failure::Config(m) => m@,
    }
}

} // verus!
