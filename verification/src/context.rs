//! The per-request value threaded through the middleware chain:
//! opaque application state, the matched route parameters, and the
//! incoming request. Route and request are shared, never mutated; a
//! middleware derives a new context by replacing the state alone.

use std::rc::Rc;
use vstd::prelude::*;
use crate::http::Request;
use crate::route::Route;

verus! {

/// The per-request context handed to middleware and handlers.
#[derive(Clone)]
pub struct Context<S> {
    /// Opaque, application-chosen state.
    pub state: S,
    /// The parameters bound by the match.
    pub route: Rc<Route>,
    /// The incoming request.
    pub req: Rc<Request>,
}

impl<S> Context<S> {
    /// Builds the context for one dispatch.
    pub fn new(state: S, route: Route, req: Request) -> (c: Context<S>)
        ensures
            c.state == state,
            c.route == route,
            c.req == req,
    {
        Context { state, route: Rc::new(route), req: Rc::new(req) }
    }

    /// A new context with the same route and request but the given
    /// state.
    pub fn with(&self, state: S) -> (c: Context<S>)
        ensures
            c.state == state,
            c.route == self.route,
            c.req == self.req,
    {
        Context { state, route: self.route.clone(), req: self.req.clone() }
    }

    /// A context with the path `/`, method `GET`, no parameters, and
    /// the given state; useful for testing.
    pub fn empty(state: S) -> (c: Context<S>)
        ensures
            c.state == state,
            c.route@ == Map::<Seq<char>, Seq<char>>::empty(),
            c.route.wf(),
            c.req.method@ == "GET"@,
            c.req.path@ == "/"@,
    {
        Context {
            state,
            route: Rc::new(Route::new()),
            req: Rc::new(Request::new(String::from_str("GET"), String::from_str("/"))),
        }
    }
}

} // verus!
