//! The router: pattern registration, path matching, and dispatch
//! through the middleware chain.

use vstd::prelude::*;
use crate::context::Context;
use crate::http::is_not_found;
use crate::http::Failure;
use crate::http::Request;
use crate::http::Response;
use crate::paths::join_segments;
use crate::paths::lemma_join_snoc;
use crate::paths::path_segments;
use crate::paths::seg_views;
use crate::paths::spec_segments;
use crate::route::Route;
use crate::tree::empty_node;
use crate::tree::is_wildcard_seg;
use crate::tree::model_with_child;
use crate::tree::model_with_handler;
use crate::tree::model_with_wildcard;
use crate::tree::NodeModel;
use crate::tree::Tree;

verus! {

/// A terminal request handler: it receives the context and produces
/// the response, and never receives a continuation.
pub trait Handler<S> {
    /// Handles the request described by `ctx`.
    fn call(&self, ctx: Context<S>) -> Result<Response, Failure>;
}

/// A middleware (tween): it may inspect the context, derive one with
/// different state, invoke the rest of the chain zero or one times, or
/// short-circuit with its own result. Calling the continuation more
/// than once is a misuse the router does not define behaviour for.
pub trait Tween<S, H: Handler<S>>: Sized {
    /// Runs this middleware on `ctx` around the rest of the chain.
    fn call(&self, ctx: Context<S>, next: &Chain<'_, H, Self>) -> Result<Response, Failure>;
}

/// The rest of the chain, as a middleware sees it: the tweens still to
/// run, in registration order, and the terminal handler. Running it
/// picks the last tween — the most recently registered one runs
/// outermost — and hands it the remainder as its continuation.
pub struct Chain<'a, H, T> {
    tweens: &'a [T],
    handler: &'a H,
}

/// What running a chain returns: with no tween left, a result the
/// handler itself can produce on `ctx`; otherwise a result the last
/// tween — the most recently registered — can produce on `ctx` when
/// handed the chain of the remaining tweens and the same handler as
/// its continuation. The chain adds nothing of its own: no recovery,
/// no retry, no rewriting.
pub open spec fn chain_output<S, H: Handler<S>, T: Tween<S, H>>(
    tweens: Seq<T>,
    handler: H,
    ctx: Context<S>,
    r: Result<Response, Failure>,
) -> bool {
    if tweens.len() == 0 {
        call_ensures(H::call, (&handler, ctx), r)
    } else {
        exists|rest: Chain<H, T>|
            #![auto]
            rest.spec_tweens() == tweens.drop_last() && rest.spec_handler() == handler
                && call_ensures(T::call, (&tweens.last(), ctx, &rest), r)
    }
}

impl<'a, H, T> Chain<'a, H, T> {
    /// The tweens still to run, in registration order.
    pub closed spec fn spec_tweens(&self) -> Seq<T> {
        self.tweens@
    }

    /// The terminal handler.
    pub closed spec fn spec_handler(&self) -> H {
        *self.handler
    }

    /// Runs the rest of the chain on `ctx`: the last remaining tween
    /// first, the handler once no tween remains; the result is
    /// whatever that call returns, unchanged.
    pub fn run<S>(&self, ctx: Context<S>) -> (r: Result<Response, Failure>) where
        H: Handler<S>,
        T: Tween<S, H>,
        ensures
            chain_output(self.spec_tweens(), self.spec_handler(), ctx, r),
     {
        let ghost gctx = ctx;
        let n = self.tweens.len();
        if n == 0 {
            self.handler.call(ctx)
        } else {
            let (rest, lastpart) = self.tweens.split_at(n - 1);
            let tween = &lastpart[0];
            let chain = Chain { tweens: rest, handler: self.handler };
            let r = tween.call(ctx, &chain);
            proof {
                assert(chain.spec_tweens() =~= self.spec_tweens().drop_last());
                assert(*tween == self.spec_tweens().last());
                assert(chain_output(self.spec_tweens(), self.spec_handler(), gctx, r)) by {
                    assert(call_ensures(T::call, (&self.spec_tweens().last(), gctx, &chain), r));
                }
            }
            r
        }
    }
}

/// The mathematical model of a router: its tree and its middleware, in
/// registration order.
#[verifier::ext_equal]
pub ghost struct RouterModel<H, T> {
    pub tree: Seq<NodeModel<H>>,
    pub tweens: Seq<T>,
}

/// The tree after registering the pattern segments `segs` below
/// `node`, with `h` at the terminal node, or `None` when a segment
/// asks for a wildcard at a node that already has a differently-named
/// one.
pub open spec fn spec_register<H>(
    t: Seq<NodeModel<H>>,
    node: int,
    segs: Seq<Seq<char>>,
    h: H,
) -> Option<Seq<NodeModel<H>>>
    decreases segs.len(),
{
    if segs.len() == 0 {
        Some(model_with_handler(t, node, h))
    } else {
        let seg = segs[0];
        if is_wildcard_seg(seg) {
            match t[node].wildcard {
                Some(p) => if p.0 == seg {
                    spec_register(t, p.1, segs.skip(1), h)
                } else {
                    None
                },
                None => spec_register(
                    model_with_wildcard(t, node, seg),
                    t.len() as int,
                    segs.skip(1),
                    h,
                ),
            }
        } else {
            if t[node].children.contains_key(seg) {
                spec_register(t, t[node].children[seg], segs.skip(1), h)
            } else {
                spec_register(model_with_child(t, node, seg), t.len() as int, segs.skip(1), h)
            }
        }
    }
}

/// The node and parameter bindings that matching `segs` from `node`
/// reaches: a literal child is preferred at every level; a `:`
/// wildcard binds the segment and descends; a `*` wildcard binds the
/// whole remaining suffix and stops consuming at its child; no edge
/// at all resets to the root.
pub open spec fn spec_match<H>(
    t: Seq<NodeModel<H>>,
    node: int,
    segs: Seq<Seq<char>>,
    params: Map<Seq<char>, Seq<char>>,
) -> (int, Map<Seq<char>, Seq<char>>)
    decreases segs.len(),
{
    if segs.len() == 0 {
        (node, params)
    } else {
        let seg = segs[0];
        if t[node].children.contains_key(seg) {
            spec_match(t, t[node].children[seg], segs.skip(1), params)
        } else {
            match t[node].wildcard {
                Some(p) => if p.0.len() > 0 && p.0[0] == ':' {
                    spec_match(t, p.1, segs.skip(1), params.insert(p.0.skip(1), seg))
                } else {
                    (p.1, params.insert(p.0.skip(1), join_segments(segs)))
                },
                None => (0, params),
            }
        }
    }
}

/// Matching a whole path: trim, split, and walk from the root with no
/// bindings.
pub open spec fn match_path<H>(t: Seq<NodeModel<H>>, path: Seq<char>) -> (
    int,
    Map<Seq<char>, Seq<char>>,
) {
    spec_match(t, 0, spec_segments(path), Map::<Seq<char>, Seq<char>>::empty())
}

/// Whether a stored segment begins with `:` or `*`.
fn is_wildcard_segment(seg: &String) -> (b: bool)
    ensures
        b == is_wildcard_seg(seg@),
{
    let n = seg.as_str().unicode_len();
    if n == 0 {
        false
    } else {
        let c = seg.as_str().get_char(0);
        c == ':' || c == '*'
    }
}

/// The router: the routing tree and the registered middleware, built
/// once at startup and read-only during dispatch.
#[derive(Clone)]
pub struct Router<H, T> {
    handlers: Tree<H>,
    tweens: Vec<T>,
}

impl<H, T> View for Router<H, T> {
    type V = RouterModel<H, T>;

    closed spec fn view(&self) -> RouterModel<H, T> {
        RouterModel { tree: self.handlers@, tweens: self.tweens@ }
    }
}

impl<H, T> Router<H, T> {
    /// The routing tree is well formed.
    pub closed spec fn wf(&self) -> bool {
        self.handlers.wf()
    }

    /// A router with an empty tree and no middleware.
    pub fn new() -> (r: Router<H, T>)
        ensures
            r.wf(),
            r@.tree == seq![empty_node::<H>()],
            r@.tweens == Seq::<T>::empty(),
    {
        let r = Router { handlers: Tree::new(), tweens: Vec::new() };
        proof {
            assert(r@.tweens =~= Seq::<T>::empty());
        }
        r
    }

    /// Registers `handler` under `pattern`: each pattern segment
    /// descends the tree, creating literal or wildcard edges as
    /// needed, and the handler is recorded at the terminal node, last
    /// write winning. Rejected with a configuration failure — leaving
    /// the router behind — exactly when a segment asks for a wildcard
    /// at a node that already has a differently-named one.
    pub fn get(self, pattern: &str, handler: H) -> (r: Result<Router<H, T>, Failure>)
        requires
            self.wf(),
        ensures
            match spec_register(self@.tree, 0, spec_segments(pattern@), handler) {
                Some(t2) => {
                    &&& r matches Ok(r2)
                    &&& r2.wf()
                    &&& r2@.tree == t2
                    &&& r2@.tweens == self@.tweens
                },
                None => {
                    &&& r matches Err(f)
                    &&& f matches Failure::Config(m) && is_wildcard_seg(m@)
                },
            },
    {
        let ghost orig = self@;
        let mut router = self;
        let segs = path_segments(pattern);
        let ghost all = seg_views(segs@);
        let mut current: usize = 0;
        let mut i: usize = 0;
        proof {
            router.handlers.model_wf();
            assert(all.skip(0) =~~= all);
        }
        while i < segs.len()
            invariant
                router.wf(),
                current < router@.tree.len(),
                i <= segs@.len(),
                all == seg_views(segs@),
                all == spec_segments(pattern@),
                orig == self@,
                router@.tweens == orig.tweens,
                spec_register(orig.tree, 0, all, handler) == spec_register(
                    router@.tree,
                    current as int,
                    all.skip(i as int),
                    handler,
                ),
            decreases segs@.len() - i,
        {
            let seg = &segs[i];
            proof {
                assert(all.skip(i as int)[0] == seg@);
                assert(all.skip(i as int).skip(1) =~~= all.skip(i + 1));
            }
            if is_wildcard_segment(seg) {
                match router.handlers.set_wildcard(current, seg) {
                    Ok(c) => {
                        current = c;
                    },
                    Err(f) => {
                        proof {
                            assert(spec_register(
                                router@.tree,
                                current as int,
                                all.skip(i as int),
                                handler,
                            ) is None);
                        }
                        return Err(f);
                    },
                }
            } else {
                current = router.handlers.add_child(current, seg);
            }
            i = i + 1;
        }
        proof {
            assert(all.skip(segs@.len() as int) =~~= Seq::<Seq<char>>::empty());
        }
        router.handlers.set_handler(current, handler);
        Ok(router)
    }

    /// Registers a middleware. Middleware runs in reverse registration
    /// order: the one registered last runs outermost and first.
    pub fn with(self, tween: T) -> (r: Router<H, T>)
        requires
            self.wf(),
        ensures
            r.wf(),
            r@.tree == self@.tree,
            r@.tweens == self@.tweens.push(tween),
    {
        let mut router = self;
        router.tweens.push(tween);
        router
    }

    /// Walks the tree against a request path: the node the match
    /// reaches and the parameters it binds.
    pub fn resolve(&self, path: &str) -> (r: (usize, Route))
        requires
            self.wf(),
        ensures
            ({
                let (node, params) = match_path(self@.tree, path@);
                &&& r.0 as int == node
                &&& r.1@ == params
                &&& r.1.wf()
                &&& r.0 < self@.tree.len()
            }),
    {
        let ghost t = self@.tree;
        let segs = path_segments(path);
        let ghost all = seg_views(segs@);
        let mut current: usize = 0;
        let mut route = Route::new();
        let mut i: usize = 0;
        let mut stopped = false;
        proof {
            self.handlers.model_wf();
            assert(all.skip(0) =~~= all);
            assert(route@ =~= Map::<Seq<char>, Seq<char>>::empty());
        }
        while i < segs.len() && !stopped
            invariant
                self.wf(),
                t == self@.tree,
                current < t.len(),
                i <= segs@.len(),
                all == seg_views(segs@),
                route.wf(),
                if stopped {
                    match_path(t, path@) == (current as int, route@)
                } else {
                    match_path(t, path@) == spec_match(t, current as int, all.skip(i as int), route@)
                },
            decreases segs@.len() - i, (if stopped { 0int } else { 1int }),
        {
            let seg = &segs[i];
            proof {
                self.handlers.model_wf();
                assert(all.skip(i as int)[0] == seg@);
                assert(all.skip(i as int).skip(1) =~~= all.skip(i + 1));
            }
            match self.handlers.get_child(current, seg) {
                Some(c) => {
                    current = c;
                    i = i + 1;
                },
                None => {
                    match self.handlers.get_wildcard(current) {
                        Some(p) => {
                            let w = &p.0;
                            let child = p.1;
                            let name = String::from_str(
                                w.as_str().substring_char(1, w.as_str().unicode_len()),
                            );
                            proof {
                                assert(name@ =~= w@.skip(1));
                            }
                            if w.as_str().get_char(0) == ':' {
                                route.insert(name, seg.clone());
                                current = child;
                                i = i + 1;
                            } else {
                                let mut suffix = seg.clone();
                                let mut j: usize = i + 1;
                                proof {
                                    assert(all.subrange(i as int, i + 1) =~~= seq![all[i as int]]);
                                }
                                while j < segs.len()
                                    invariant
                                        i < j <= segs@.len(),
                                        all == seg_views(segs@),
                                        suffix@ == join_segments(
                                            all.subrange(i as int, j as int),
                                        ),
                                    decreases segs@.len() - j,
                                {
                                    proof {
                                        reveal_strlit("/");
                                        lemma_join_snoc(
                                            all.subrange(i as int, j as int),
                                            all[j as int],
                                        );
                                        assert(all.subrange(i as int, j + 1) =~~= all.subrange(
                                            i as int,
                                            j as int,
                                        ).push(all[j as int]));
                                    }
                                    suffix.append("/");
                                    suffix.append(segs[j].as_str());
                                    j = j + 1;
                                }
                                proof {
                                    assert(all.subrange(i as int, segs@.len() as int) =~~= all.skip(
                                        i as int,
                                    ));
                                }
                                route.insert(name, suffix);
                                current = child;
                                stopped = true;
                            }
                        },
                        None => {
                            current = 0;
                            stopped = true;
                        },
                    }
                },
            }
        }
        proof {
            if !stopped {
                assert(i == segs@.len());
                assert(all.skip(i as int) =~~= Seq::<Seq<char>>::empty());
            }
        }
        (current, route)
    }
}

/// Dispatches a request: matches its path, and when the reached node
/// holds a handler, runs the middleware chain around it — the most
/// recently registered middleware outermost — on a fresh context
/// carrying the state, the bound parameters and the request, and
/// returns the chain's result unchanged; when the node holds none,
/// returns the not-found response.
pub fn handle<S, H: Handler<S>, T: Tween<S, H>>(
    router: &Router<H, T>,
    state: S,
    req: Request,
) -> (r: Result<Response, Failure>)
    requires
        router.wf(),
    ensures
        ({
            let (node, params) = match_path(router@.tree, req.path@);
            router@.tree[node].handler is None ==> (r matches Ok(resp) && is_not_found(resp))
        }),
        ({
            let (node, params) = match_path(router@.tree, req.path@);
            router@.tree[node].handler matches Some(h) ==> exists|ctx: Context<S>|
                #![auto]
                ctx.state == state && ctx.route@ == params && ctx.req == req && chain_output(
                    router@.tweens,
                    h,
                    ctx,
                    r,
                )
        }),
{
    let ghost gstate = state;
    let ghost greq = req;
    let (node, route) = router.resolve(req.path());
    match router.handlers.get_handler(node) {
        Some(h) => {
            let ctx = Context::new(state, route, req);
            let ghost gctx = ctx;
            let chain = Chain { tweens: router.tweens.as_slice(), handler: h };
            let r = chain.run(ctx);
            proof {
                let (gnode, gparams) = match_path(router@.tree, greq.path@);
                assert(gctx.state == gstate && gctx.route@ == gparams && gctx.req == greq);
                assert(chain.spec_tweens() == router@.tweens && chain.spec_handler() == router@.tree[
                    gnode
                ].handler->Some_0);
                assert(chain_output(router@.tweens, router@.tree[gnode].handler->Some_0, gctx, r));
            }
            r
        },
        None => Ok(Response::not_found()),
    }
}

} // verus!
