use spellbook::handle;
use spellbook::Chain;
use spellbook::Context;
use spellbook::Failure;
use spellbook::Handler;
use spellbook::ParamError;
use spellbook::Request;
use spellbook::Response;
use spellbook::Route;
use spellbook::Router;
use spellbook::Tween;
use spellbook::trim_path;
use spellbook::paths::split_segments;
use spellbook::tree::Tree;

#[derive(Clone)]
struct State {
    name: Option<String>,
}

struct Index;

impl Handler<State> for Index {
    fn call(&self, context: Context<State>) -> Result<Response, Failure> {
        let body = match &context.state.name {
            Some(name) => format!("Hello {}!", name),
            None => String::from("Hello World!"),
        };
        Ok(Response::new().with_body(body))
    }
}

struct NameMiddleware;

impl Tween<State, Index> for NameMiddleware {
    fn call(
        &self,
        context: Context<State>,
        next: &Chain<'_, Index, Self>,
    ) -> Result<Response, Failure> {
        let new_state = State {
            name: Some(String::from("Walt Longmire")),
        };
        next.run(context.with(new_state))
    }
}

fn do_test(router: Router<Index, NameMiddleware>, expected_body: String) {
    let state = State { name: None };

    let result = handle(
        &router,
        state,
        Request::new(String::from("GET"), String::from("/")),
    );

    let response = result.unwrap();
    assert_eq!(response.body(), expected_body.as_str());
}

#[test]
fn test_simple_handler() {
    let router = Router::new().get("/", Index).unwrap();

    do_test(router, String::from("Hello World!"));
}

#[test]
fn test_middleware() {
    let router = Router::new().with(NameMiddleware).get("/", Index).unwrap();

    do_test(router, String::from("Hello Walt Longmire!"));
}

#[test]
fn not_found_is_distinguishable() {
    let router: Router<Index, NameMiddleware> = Router::new().get("/", Index).unwrap();
    let result = handle(
        &router,
        State { name: None },
        Request::new(String::from("GET"), String::from("/missing")),
    );
    let response = result.unwrap();
    assert_eq!(response.status(), 404);
    assert_eq!(response.body(), "404");
}

// A handler that answers with a fixed tag, so two routes can be told
// apart.
struct Tagged(&'static str);

impl<S> Handler<S> for Tagged {
    fn call(&self, _context: Context<S>) -> Result<Response, Failure> {
        Ok(Response::new().with_body(String::from(self.0)))
    }
}

// A middleware that forwards untouched.
struct Pass;

impl<S, H: Handler<S>> Tween<S, H> for Pass {
    fn call(&self, context: Context<S>, next: &Chain<'_, H, Self>) -> Result<Response, Failure> {
        next.run(context)
    }
}

#[test]
fn exact_literal_pattern_matches() {
    let router: Router<Tagged, Pass> = Router::new().get("/a/b/c", Tagged("abc")).unwrap();
    let hit = handle(&router, (), Request::new(String::from("GET"), String::from("/a/b/c")));
    assert_eq!(hit.unwrap().body(), "abc");

    let miss = handle(&router, (), Request::new(String::from("GET"), String::from("/a/x/c")));
    assert_eq!(miss.unwrap().status(), 404);
    let miss2 = handle(&router, (), Request::new(String::from("GET"), String::from("/a/b/d")));
    assert_eq!(miss2.unwrap().status(), 404);
}

// A handler that echoes one route parameter.
struct EchoParam(&'static str);

impl<S> Handler<S> for EchoParam {
    fn call(&self, context: Context<S>) -> Result<Response, Failure> {
        match context.route.get::<String>(self.0) {
            Ok(v) => Ok(Response::new().with_body(v)),
            Err(_) => Err(Failure::Handler(String::from("param lost"))),
        }
    }
}

#[test]
fn named_wildcard_binds_segment() {
    let router: Router<EchoParam, Pass> =
        Router::new().get("/a/:id/b", EchoParam("id")).unwrap();
    let r = handle(&router, (), Request::new(String::from("GET"), String::from("/a/xyz/b")));
    assert_eq!(r.unwrap().body(), "xyz");

    let r2 = handle(&router, (), Request::new(String::from("GET"), String::from("/a/42/b")));
    assert_eq!(r2.unwrap().body(), "42");
}

#[test]
fn literal_beats_wildcard() {
    let router: Router<Tagged, Pass> = Router::new()
        .get("/users/:id", Tagged("wildcard"))
        .unwrap()
        .get("/users/admin", Tagged("literal"))
        .unwrap();
    let r = handle(
        &router,
        (),
        Request::new(String::from("GET"), String::from("/users/admin")),
    );
    assert_eq!(r.unwrap().body(), "literal");

    let other = handle(
        &router,
        (),
        Request::new(String::from("GET"), String::from("/users/walt")),
    );
    assert_eq!(other.unwrap().body(), "wildcard");
}

#[test]
fn catch_all_wildcard_binds_suffix() {
    let router: Router<EchoParam, Pass> =
        Router::new().get("/files/*rest", EchoParam("rest")).unwrap();
    let r = handle(
        &router,
        (),
        Request::new(String::from("GET"), String::from("/files/a/b/c")),
    );
    assert_eq!(r.unwrap().body(), "a/b/c");

    let single = handle(
        &router,
        (),
        Request::new(String::from("GET"), String::from("/files/x")),
    );
    assert_eq!(single.unwrap().body(), "x");
}

// Middleware ordering: each tag tween appends its tag to the state,
// and the handler answers with the tags in the order they were
// applied.
#[derive(Clone)]
struct TagState(Vec<String>);

struct TagTween(&'static str);

struct JoinTags;

impl Handler<TagState> for JoinTags {
    fn call(&self, context: Context<TagState>) -> Result<Response, Failure> {
        Ok(Response::new().with_body(context.state.0.join(",")))
    }
}

impl Tween<TagState, JoinTags> for TagTween {
    fn call(
        &self,
        context: Context<TagState>,
        next: &Chain<'_, JoinTags, Self>,
    ) -> Result<Response, Failure> {
        let mut tags = context.state.0.clone();
        tags.push(String::from(self.0));
        next.run(context.with(TagState(tags)))
    }
}

#[test]
fn middleware_runs_in_reverse_registration_order() {
    let router = Router::new()
        .with(TagTween("m1"))
        .with(TagTween("m2"))
        .with(TagTween("m3"))
        .get("/", JoinTags)
        .unwrap();
    let r = handle(
        &router,
        TagState(Vec::new()),
        Request::new(String::from("GET"), String::from("/")),
    );
    assert_eq!(r.unwrap().body(), "m3,m2,m1");
}

// A middleware that answers by itself and never calls the rest of the
// chain.
struct ShortCircuit;

impl<S, H: Handler<S>> Tween<S, H> for ShortCircuit {
    fn call(&self, _context: Context<S>, _next: &Chain<'_, H, Self>) -> Result<Response, Failure> {
        Ok(Response::new().with_body(String::from("intercepted")))
    }
}

#[test]
fn middleware_can_short_circuit() {
    let router: Router<Tagged, ShortCircuit> = Router::new()
        .with(ShortCircuit)
        .get("/", Tagged("handler"))
        .unwrap();
    let r = handle(&router, (), Request::new(String::from("GET"), String::from("/")));
    assert_eq!(r.unwrap().body(), "intercepted");
}

// A handler that always fails.
struct Failing;

impl<S> Handler<S> for Failing {
    fn call(&self, _context: Context<S>) -> Result<Response, Failure> {
        Err(Failure::Handler(String::from("boom")))
    }
}

#[test]
fn handler_failure_propagates_unchanged() {
    let router: Router<Failing, Pass> =
        Router::new().with(Pass).get("/", Failing).unwrap();
    let r = handle(&router, (), Request::new(String::from("GET"), String::from("/")));
    match r {
        Err(Failure::Handler(m)) => assert_eq!(m, "boom"),
        _ => panic!("expected the handler's failure"),
    }
}

#[test]
fn conflicting_wildcards_are_rejected() {
    let router: Router<Tagged, Pass> =
        Router::new().get("/x/:a", Tagged("first")).unwrap();
    let result = router.get("/x/:b", Tagged("second"));
    match result {
        Err(Failure::Config(m)) => assert_eq!(m, ":b"),
        _ => panic!("expected a configuration failure"),
    }
}

#[test]
fn same_wildcard_can_be_registered_twice() {
    let router: Router<Tagged, Pass> = Router::new()
        .get("/x/:a", Tagged("first"))
        .unwrap()
        .get("/x/:a/y", Tagged("second"))
        .unwrap();
    let r = handle(&router, (), Request::new(String::from("GET"), String::from("/x/7/y")));
    assert_eq!(r.unwrap().body(), "second");
}

#[test]
fn last_registration_wins() {
    let router: Router<Tagged, Pass> = Router::new()
        .get("/dup", Tagged("first"))
        .unwrap()
        .get("/dup", Tagged("second"))
        .unwrap();
    let r = handle(&router, (), Request::new(String::from("GET"), String::from("/dup")));
    assert_eq!(r.unwrap().body(), "second");
}

#[test]
fn add_child_is_idempotent() {
    let mut tree: Tree<Tagged> = Tree::new();
    let seg = String::from("users");
    let first = tree.add_child(0, &seg);
    let second = tree.add_child(0, &seg);
    assert_eq!(first, second);
    assert_eq!(tree.len(), 2);
}

#[test]
fn route_roundtrip_and_type_mismatch() {
    let mut map = Vec::new();
    map.push((String::from("name"), String::from("Walt")));
    map.push((String::from("age"), String::from("42")));

    let route = Route::from_params(map);

    assert_eq!(route.get::<String>("name").unwrap(), "Walt");
    assert_eq!(route.get::<u32>("age").unwrap(), 42);
    assert_eq!(route.get::<u32>("name"), Err(ParamError::TypeMismatch));
    assert_eq!(route.get::<u32>("height"), Err(ParamError::Missing));
    assert_eq!(route.get_str("name").unwrap().as_str(), "Walt");
    assert!(route.get_str("height").is_none());
}

#[test]
fn later_pair_wins_in_from_params() {
    let mut map = Vec::new();
    map.push((String::from("k"), String::from("old")));
    map.push((String::from("k"), String::from("new")));
    let route = Route::from_params(map);
    assert_eq!(route.get::<String>("k").unwrap(), "new");
}

#[test]
fn context_with_keeps_route_and_request() {
    let ctx1 = Context::empty("one");
    let ctx2 = ctx1.with("two");
    assert_eq!(ctx1.req.path(), ctx2.req.path());
    assert_eq!(ctx2.state, "two");
    assert_eq!(ctx2.req.path(), "/");
    assert_eq!(ctx2.req.method(), "GET");
}

#[test]
fn trimming_strips_one_slash_each_side() {
    assert_eq!(trim_path("/a/b/"), "a/b");
    assert_eq!(trim_path("/"), "");
    assert_eq!(trim_path(""), "");
    assert_eq!(trim_path("//"), "");
    assert_eq!(trim_path("a/b"), "a/b");
}

#[test]
fn splitting_yields_one_segment_per_slash_gap() {
    let segs = split_segments("a/b/c");
    assert_eq!(segs, vec!["a", "b", "c"]);
    let root = split_segments("");
    assert_eq!(root, vec![""]);
    let gap = split_segments("a//b");
    assert_eq!(gap, vec!["a", "", "b"]);
}

#[test]
fn root_pattern_does_not_catch_all() {
    let router: Router<Tagged, Pass> = Router::new().get("/", Tagged("root")).unwrap();
    let hit = handle(&router, (), Request::new(String::from("GET"), String::from("/")));
    assert_eq!(hit.unwrap().body(), "root");
    let miss = handle(&router, (), Request::new(String::from("GET"), String::from("/missing")));
    assert_eq!(miss.unwrap().status(), 404);
}

// Calling the continuation more than once is a misuse: the rest of
// the chain simply runs again, so the handler observes two calls.
struct DoubleCall;

struct Counting(std::rc::Rc<std::cell::Cell<u32>>);

impl Handler<u32> for Counting {
    fn call(&self, _context: Context<u32>) -> Result<Response, Failure> {
        self.0.set(self.0.get() + 1);
        Ok(Response::new().with_body(String::from("counted")))
    }
}

impl Tween<u32, Counting> for DoubleCall {
    fn call(
        &self,
        context: Context<u32>,
        next: &Chain<'_, Counting, Self>,
    ) -> Result<Response, Failure> {
        let _ = next.run(context.clone());
        next.run(context)
    }
}

#[test]
fn calling_next_twice_runs_the_chain_twice() {
    let calls = std::rc::Rc::new(std::cell::Cell::new(0));
    let router = Router::new()
        .with(DoubleCall)
        .get("/", Counting(calls.clone()))
        .unwrap();
    let r = handle(&router, 0, Request::new(String::from("GET"), String::from("/")));
    assert_eq!(r.unwrap().body(), "counted");
    assert_eq!(calls.get(), 2);
}
