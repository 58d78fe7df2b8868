//! Handlers, their registration, and the dispatcher that runs them in the
//! order of registration.

use vstd::prelude::*;
use crate::dispatch::{head, left, merged, smallest, Source};
use crate::error::InvalidPathError;
use crate::matching::lemma_lookup_empty;
use crate::middlewares::Closures;
use crate::path::{split_path, valid_chunks, PathBuf};
use crate::order::{lemma_with_wf, Registration};
use crate::registry::{store_below, Paths, Registry};
use crate::request::{MatchedRequest, Request, RequestMethod};
use crate::responder::Response;
use crate::trie::{
    joined, lookup, match_views, shiftable, shifted_all, Match,
    MatchedPath, SegmentKey,
};
use crate::util::pair_views;

verus! {

/// What a handler tells the dispatcher once it has run: end the chain for
/// this request, or go on to the next handler that matches.
#[derive(Copy, Clone, Debug, PartialEq, Eq, Structural)]
pub enum Flow {
    /// No handler after this one runs for the request.
    Stop,
    /// The next matching handler runs.
    Next,
}

impl Flow {
    /// True exactly for `Flow::Next`.
    pub fn should_continue(self) -> (b: bool)
        ensures
            b == (self == Flow::Next),
    {
        matches!(self, Flow::Next)
    }
}

/// Something that handles requests: it reads the request, builds up the
/// response, and says whether the chain goes on.
pub trait Handler: Send + Sync {
    /// What the handler may do: turn the response `before` into `after`
    /// and return `flow`, on `request` with its variables bound as `vars`
    /// says.
    spec fn handled(
        &self,
        request: Request,
        vars: Seq<(Seq<char>, Seq<char>)>,
        before: Response,
        after: Response,
        flow: Flow,
    ) -> bool;

    /// Handles one request.
    fn handle(&self, req: &MatchedRequest, res: &mut Response) -> (flow: Flow)
        ensures
            self.handled(*req.request, pair_views(req.vars@), *old(res), *final(res), flow),
    ;
}

/// A handler as the registry stores it.
pub struct Closure {
    pub handler: Box<dyn Handler>,
}

impl Closure {
    /// What the handler may do.
    pub open spec fn handled(
        &self,
        request: Request,
        vars: Seq<(Seq<char>, Seq<char>)>,
        before: Response,
        after: Response,
        flow: Flow,
    ) -> bool {
        self.handler.handled(request, vars, before, after, flow)
    }

    /// Lets the handler handle one request.
    pub fn handle(&self, req: &MatchedRequest, res: &mut Response) -> (flow: Flow)
        ensures
            self.handled(*req.request, pair_views(req.vars@), *old(res), *final(res), flow),
    {
        self.handler.handle(req, res)
    }
}

/// The closure can be called on every request and every response: it asks
/// nothing of them. A closure that is written without a `requires` is so.
pub open spec fn always_ready<F, R>(f: F) -> bool where
    F: for <'a, 'b> Fn(&'a MatchedRequest<'b>, &'a mut Response) -> R,
 {
    forall|a: &MatchedRequest, b: &mut Response| call_requires(f, (a, b))
}

/// What the closure may return on a request and a response: `r` is a
/// result that the closure's own contract allows where it is called on
/// `request`, with its variables bound as `vars` says, and on the response
/// `before`. Of a closure that is written without a contract every result
/// is so.
pub open spec fn may_return<F, R>(
    f: F,
    request: Request,
    vars: Seq<(Seq<char>, Seq<char>)>,
    before: Response,
    r: R,
) -> bool where F: for <'a, 'b> Fn(&'a MatchedRequest<'b>, &'a mut Response) -> R {
    exists|a: &MatchedRequest, b: &mut Response|
        *a.request == request && pair_views(a.vars@) == vars && *b == before
            && #[trigger] call_ensures(f, (a, b), r)
}

/// A handler made of a closure that returns the flow. The closure can be
/// called on every request and every response.
pub struct Plain<F> where F: for <'a, 'b> Fn(&'a MatchedRequest<'b>, &'a mut Response) -> Flow {
    f: F,
}

impl<F> Plain<F> where F: for <'a, 'b> Fn(&'a MatchedRequest<'b>, &'a mut Response) -> Flow {
    #[verifier::type_invariant]
    spec fn ready(self) -> bool {
        always_ready(self.f)
    }

    /// The closure that the handler was made of.
    pub closed spec fn inner(self) -> F {
        self.f
    }
}

impl<F> Handler for Plain<F> where
    F: for <'a, 'b> Fn(&'a MatchedRequest<'b>, &'a mut Response) -> Flow + Send + Sync,
 {
    /// The flow is one that the closure may return on the request and the
    /// response. Nothing is said of the response that the closure leaves.
    open spec fn handled(
        &self,
        request: Request,
        vars: Seq<(Seq<char>, Seq<char>)>,
        before: Response,
        after: Response,
        flow: Flow,
    ) -> bool {
        may_return(self.inner(), request, vars, before, flow)
    }

    fn handle(&self, req: &MatchedRequest, res: &mut Response) -> (flow: Flow) {
        proof {
            use_type_invariant(self);
        }
        (self.f)(req, res)
    }
}

/// Makes a handler of a closure. The closure must ask nothing of the
/// request and the response that it is called on; the handler may then do
/// whatever the closure does.
pub fn route<F>(f: F) -> (closure: Closure) where
    F: for <'a, 'b> Fn(&'a MatchedRequest<'b>, &'a mut Response) -> Flow + Send + Sync + 'static,

    requires
        always_ready(f),
    ensures
        forall|
            request: Request,
            vars: Seq<(Seq<char>, Seq<char>)>,
            before: Response,
            after: Response,
            flow: Flow,
        | #[trigger]
            closure.handled(request, vars, before, after, flow) <==> may_return(
                f,
                request,
                vars,
                before,
                flow,
            ),
{
    Closure { handler: Box::new(Plain { f }) }
}

/// A handler made of a closure that says nothing of the flow: whatever the
/// closure does, the handler returns the flow that it was made with. The
/// closure can be called on every request and every response.
pub struct Fixed<F> where F: for <'a, 'b> Fn(&'a MatchedRequest<'b>, &'a mut Response) {
    f: F,
    flow: Flow,
}

impl<F> Fixed<F> where F: for <'a, 'b> Fn(&'a MatchedRequest<'b>, &'a mut Response) {
    #[verifier::type_invariant]
    spec fn ready(self) -> bool {
        always_ready(self.f)
    }

    /// The flow that the handler returns.
    pub closed spec fn flow(self) -> Flow {
        self.flow
    }

    /// The closure that the handler was made of.
    pub closed spec fn inner(self) -> F {
        self.f
    }
}

impl<F> Handler for Fixed<F> where
    F: for <'a, 'b> Fn(&'a MatchedRequest<'b>, &'a mut Response) + Send + Sync,
 {
    /// The flow is the one that the handler was made with, and the closure
    /// may return on the request and the response. Nothing is said of the
    /// response that the closure leaves.
    open spec fn handled(
        &self,
        request: Request,
        vars: Seq<(Seq<char>, Seq<char>)>,
        before: Response,
        after: Response,
        flow: Flow,
    ) -> bool {
        flow == self.flow() && may_return(self.inner(), request, vars, before, ())
    }

    fn handle(&self, req: &MatchedRequest, res: &mut Response) -> (flow: Flow) {
        proof {
            use_type_invariant(self);
        }
        (self.f)(req, res);
        self.flow
    }
}

/// Makes a handler of a closure that returns nothing: the chain goes on
/// behind it. The closure must ask nothing of the request and the response
/// that it is called on.
pub fn route_next<F>(f: F) -> (closure: Closure) where
    F: for <'a, 'b> Fn(&'a MatchedRequest<'b>, &'a mut Response) + Send + Sync + 'static,

    requires
        always_ready(f),
    ensures
        forall|
            request: Request,
            vars: Seq<(Seq<char>, Seq<char>)>,
            before: Response,
            after: Response,
            flow: Flow,
        | #[trigger]
            closure.handled(request, vars, before, after, flow) <==> flow == Flow::Next
                && may_return(f, request, vars, before, ()),
{
    Closure { handler: Box::new(Fixed { f, flow: Flow::Next }) }
}

/// Makes a handler of a closure that returns nothing: the chain ends with
/// it. The closure must ask nothing of the request and the response that
/// it is called on.
pub fn route_stop<F>(f: F) -> (closure: Closure) where
    F: for <'a, 'b> Fn(&'a MatchedRequest<'b>, &'a mut Response) + Send + Sync + 'static,

    requires
        always_ready(f),
    ensures
        forall|
            request: Request,
            vars: Seq<(Seq<char>, Seq<char>)>,
            before: Response,
            after: Response,
            flow: Flow,
        | #[trigger]
            closure.handled(request, vars, before, after, flow) <==> flow == Flow::Stop
                && may_return(f, request, vars, before, ()),
{
    Closure { handler: Box::new(Fixed { f, flow: Flow::Stop }) }
}

/// What registering a handler gives: the index of the handler in the order
/// of registration, or the reason why the path was refused.
pub type RouterResult = Result<usize, InvalidPathError>;

/// What registering for `method` under `path` does to a registry: a path
/// whose components are well formed adds the route and gives the index
/// that the counter stood at, any other is refused and leaves the registry
/// as it was.
pub open spec fn routed(
    before: Registry,
    after: Registry,
    method: RequestMethod,
    path: Seq<char>,
    closure: Closure,
    r: RouterResult,
) -> bool {
    if valid_chunks(split_path(path)) {
        r == Ok::<usize, InvalidPathError>(before.counter as usize) && after == before.with_route(
            method,
            split_path(path),
            closure,
        )
    } else {
        r is Err && after == before
    }
}

/// Registration of handlers, by method.
pub trait Route {
    /// What is registered.
    spec fn registry(&self) -> Registry;

    /// The invariant of the implementor.
    spec fn sound(&self) -> bool;

    /// Registers `closure` for every method, under the pattern `path`.
    fn add_route(&mut self, path: &str, closure: Closure) -> (r: RouterResult)
        requires
            old(self).sound(),
            valid_chunks(split_path(path@)) ==> old(self).registry().counter < usize::MAX,
        ensures
            final(self).sound(),
            routed(
                old(self).registry(),
                final(self).registry(),
                RequestMethod::All,
                path@,
                closure,
                r,
            ),
    ;

    /// Registers `closure` for HEAD requests, under the pattern `path`.
    fn head(&mut self, path: &str, closure: Closure) -> (r: RouterResult)
        requires
            old(self).sound(),
            valid_chunks(split_path(path@)) ==> old(self).registry().counter < usize::MAX,
        ensures
            final(self).sound(),
            routed(
                old(self).registry(),
                final(self).registry(),
                RequestMethod::Head,
                path@,
                closure,
                r,
            ),
    ;

    /// Registers `closure` for POST requests, under the pattern `path`.
    fn post(&mut self, path: &str, closure: Closure) -> (r: RouterResult)
        requires
            old(self).sound(),
            valid_chunks(split_path(path@)) ==> old(self).registry().counter < usize::MAX,
        ensures
            final(self).sound(),
            routed(
                old(self).registry(),
                final(self).registry(),
                RequestMethod::Post,
                path@,
                closure,
                r,
            ),
    ;

    /// Registers `closure` for GET requests, under the pattern `path`.
    fn get(&mut self, path: &str, closure: Closure) -> (r: RouterResult)
        requires
            old(self).sound(),
            valid_chunks(split_path(path@)) ==> old(self).registry().counter < usize::MAX,
        ensures
            final(self).sound(),
            routed(
                old(self).registry(),
                final(self).registry(),
                RequestMethod::Get,
                path@,
                closure,
                r,
            ),
    ;

    /// Registers `closure` for PUT requests, under the pattern `path`.
    fn put(&mut self, path: &str, closure: Closure) -> (r: RouterResult)
        requires
            old(self).sound(),
            valid_chunks(split_path(path@)) ==> old(self).registry().counter < usize::MAX,
        ensures
            final(self).sound(),
            routed(
                old(self).registry(),
                final(self).registry(),
                RequestMethod::Put,
                path@,
                closure,
                r,
            ),
    ;

    /// Registers `closure` for DELETE requests, under the pattern `path`.
    fn delete(&mut self, path: &str, closure: Closure) -> (r: RouterResult)
        requires
            old(self).sound(),
            valid_chunks(split_path(path@)) ==> old(self).registry().counter < usize::MAX,
        ensures
            final(self).sound(),
            routed(
                old(self).registry(),
                final(self).registry(),
                RequestMethod::Delete,
                path@,
                closure,
                r,
            ),
    ;

    /// Registers `closure` for PATCH requests, under the pattern `path`.
    fn patch(&mut self, path: &str, closure: Closure) -> (r: RouterResult)
        requires
            old(self).sound(),
            valid_chunks(split_path(path@)) ==> old(self).registry().counter < usize::MAX,
        ensures
            final(self).sound(),
            routed(
                old(self).registry(),
                final(self).registry(),
                RequestMethod::Patch,
                path@,
                closure,
                r,
            ),
    ;

    /// Registers `entity` for every path and every method. This always
    /// succeeds.
    fn add(&mut self, entity: Closure) -> (r: RouterResult)
        requires
            old(self).sound(),
            old(self).registry().counter < usize::MAX,
        ensures
            final(self).sound(),
            r == Ok::<usize, InvalidPathError>(old(self).registry().counter as usize),
            final(self).registry() == old(self).registry().with_middleware(entity),
    ;
}

/// The registry of handlers: one trie of patterns for each method, the
/// handlers that serve every path, and the counter that numbers them all in
/// the order in which they are registered.
pub struct Router {
    /// How many handlers were registered: the index of the next one.
    pub route_counter: usize,
    /// The handlers that serve every path and every method.
    pub middlewares: Vec<Closures>,
    /// The routes, by method.
    pub paths: Paths,
}

impl View for Router {
    type V = Registry;

    open spec fn view(&self) -> Registry {
        Registry {
            counter: self.route_counter as nat,
            methods: self.paths.methods(),
            routes: self.paths@,
            middleware: Seq::new(self.middlewares@.len(), |i: int| self.middlewares@[i]@),
        }
    }
}

/// The handlers at the head of `order` ran one after the other, as many
/// as there are flows: handler number `t` ran on the response `states[t]`,
/// which had no body, turned it into `states[t + 1]` and returned
/// `flows[t]`. The first response is `before`, the last `after`.
#[verifier::opaque]
pub open spec fn chain(
    order: Seq<Match<Closure>>,
    request: Request,
    before: Response,
    after: Response,
    flows: Seq<Flow>,
    states: Seq<Response>,
) -> bool {
    let n = flows.len() as int;
    &&& n <= order.len()
    &&& states.len() == n + 1
    &&& states[0] == before
    &&& states[n] == after
    &&& forall|t: int|
        0 <= t < n ==> !(#[trigger] states[t]).has_body && order[t].data.handled(
            request,
            order[t].vars,
            states[t],
            states[t + 1],
            flows[t],
        )
}

/// Every flow but the last is `Flow::Next`.
pub open spec fn next_but_last(flows: Seq<Flow>) -> bool {
    forall|t: int| 0 <= t < flows.len() - 1 ==> #[trigger] flows[t] == Flow::Next
}

/// What it is to have served `request` with the handlers of `order`: the
/// handlers ran one after the other from the first on, each on a response
/// without a body, each but the last returned `Flow::Next`, and the chain
/// ended before the last handler of `order` only because the response had
/// a body or the last handler that ran returned `Flow::Stop`.
pub open spec fn served(
    order: Seq<Match<Closure>>,
    request: Request,
    before: Response,
    after: Response,
    flows: Seq<Flow>,
    states: Seq<Response>,
) -> bool {
    &&& chain(order, request, before, after, flows, states)
    &&& next_but_last(flows)
    &&& flows.len() < order.len() ==> after.has_body || (flows.len() > 0 && flows.last()
        == Flow::Stop)
}

/// Before any handler has run, the chain is empty.
proof fn lemma_chain_start(order: Seq<Match<Closure>>, request: Request, before: Response)
    ensures
        chain(order, request, before, before, Seq::empty(), seq![before]),
{
    reveal(chain);
}

/// One more handler has run.
proof fn lemma_chain_step(
    order: Seq<Match<Closure>>,
    request: Request,
    before: Response,
    entering: Response,
    after: Response,
    flows: Seq<Flow>,
    states: Seq<Response>,
    flow: Flow,
)
    requires
        chain(order, request, before, entering, flows, states),
        flows.len() < order.len(),
        !entering.has_body,
        order[flows.len() as int].data.handled(
            request,
            order[flows.len() as int].vars,
            entering,
            after,
            flow,
        ),
    ensures
        chain(order, request, before, after, flows.push(flow), states.push(after)),
{
    reveal(chain);
    let n = flows.len() as int;
    let longer = flows.push(flow);
    let further = states.push(after);
    assert forall|t: int| 0 <= t < n + 1 implies !(#[trigger] further[t]).has_body
        && order[t].data.handled(request, order[t].vars, further[t], further[t + 1], longer[t]) by {
        if t < n {
            assert(further[t] == states[t]);
            assert(further[t + 1] == states[t + 1]);
            assert(longer[t] == flows[t]);
        }
    }
}

/// What was merged up to a point, and the next match of the merge, is what
/// was merged up to the next point.
proof fn lemma_order_step(
    order: Seq<Match<Closure>>,
    n: int,
    found: Match<Closure>,
    rest: Seq<Match<Closure>>,
)
    requires
        0 <= n <= order.len(),
        order == order.take(n) + (seq![found] + rest),
    ensures
        n < order.len(),
        order[n] == found,
        order == order.take(n + 1) + rest,
{
    let tail = seq![found] + rest;
    assert(order.len() == n + tail.len());
    assert(order[n] == tail[0]);
    assert(order.take(n + 1) + rest =~= order.take(n) + tail);
}

impl Router {
    /// The invariant of a router.
    pub open spec fn wf(&self) -> bool {
        self.paths.wf() && self@.wf()
    }

    /// A router without handlers.
    pub fn new() -> (router: Router)
        ensures
            router.wf(),
            router@ == Registry::empty(),
            router.route_counter == 0,
            router.middlewares@ == Seq::<Closures>::empty(),
            router.paths.methods() == Set::<RequestMethod>::empty(),
    {
        Router { route_counter: 0, middlewares: Vec::new(), paths: Paths::new() }
    }

    /// Registers `closure` for `method` under the pattern `path`, as the
    /// next handler in the order of registration. `RequestMethod::All`
    /// registers it for every method. The counter must have room for the
    /// handler; a pattern that is refused needs none.
    pub fn register(&mut self, method: RequestMethod, path: &str, closure: Closure) -> (r:
        RouterResult)
        requires
            old(self).wf(),
            valid_chunks(split_path(path@)) ==> old(self).route_counter < usize::MAX,
        ensures
            final(self).wf(),
            routed(old(self)@, final(self)@, method, path@, closure, r),
            final(self).paths.methods() == (if r is Ok {
                old(self).paths.methods().insert(method)
            } else {
                old(self).paths.methods()
            }),
            final(self).middlewares == old(self).middlewares,
    {
        match PathBuf::parse(path) {
            Ok(parsed) => {
                let ghost before = self@;
                let index = self.route_counter;
                self.paths.insert(method, &parsed, closure, index);
                self.route_counter += 1;
                proof {
                    self.paths.lemma_view_total();
                    assert(self@.middleware == before.middleware);
                    assert(self@ == before.with_route(method, parsed@, closure));
                    lemma_with_wf(before, Registration::Route { method, path: parsed@, closure });
                }
                Ok(index)
            },
            Err(e) => Err(e),
        }
    }

    /// The matches of the handlers without a pattern.
    fn always<'a>(&'a self, Ghost(path): Ghost<Seq<Seq<char>>>) -> (found: Vec<
        MatchedPath<'a, Closure>,
    >)
        ensures
            match_views(found@) == self@.middleware_matches(path),
    {
        let mut found: Vec<MatchedPath<'a, Closure>> = Vec::new();
        let mut i: usize = 0;
        while i < self.middlewares.len()
            invariant
                i <= self.middlewares@.len(),
                found@.len() == i,
                forall|t: int|
                    0 <= t < i ==> (#[trigger] found@[t])@ == self@.middleware_matches(path)[t],
            decreases self.middlewares@.len() - i,
        {
            let entry = &self.middlewares[i];
            let one = MatchedPath { data: &entry.closure, index: entry.index, vars: Vec::new() };
            proof {
                assert(one@.vars =~= self@.middleware_matches(path)[i as int].vars);
            }
            found.push(one);
            i += 1;
        }
        found
    }

    /// The matches among the routes of `method`.
    fn routes<'a>(&'a self, method: RequestMethod, path: &PathBuf) -> (found: Vec<
        MatchedPath<'a, Closure>,
    >)
        requires
            self.wf(),
        ensures
            match_views(found@) == lookup(self@.routes[method], path@),
    {
        match self.paths.get(&method) {
            Some(node) => node.get(path),
            None => {
                proof {
                    lemma_lookup_empty::<Closure>(path@);
                }
                Vec::new()
            },
        }
    }

    /// Serves a request: runs the handlers that match it, in the order of
    /// their registration, on the response `res`. No handler runs once the
    /// response has a body or a handler has returned `Flow::Stop`.
    ///
    /// A fault inside a handler is the handler's own: a handler that panics
    /// unwinds through `run`, which catches nothing. The request is then
    /// abandoned where it stands, and the registry, which `run` only reads,
    /// is as it was.
    pub fn run(&self, parsed_request: Request, res: &mut Response)
        requires
            self.wf(),
        ensures
            exists|flows: Seq<Flow>, states: Seq<Response>|
                served(
                    self@.dispatch_order(
                        parsed_request.request_line.method,
                        parsed_request.request_line.path@,
                    ),
                    parsed_request,
                    *old(res),
                    *final(res),
                    flows,
                    states,
                ),
    {
        let by_method = if parsed_request.request_line.method == RequestMethod::All {
            Vec::new()
        } else {
            self.routes(parsed_request.request_line.method, &parsed_request.request_line.path)
        };
        let by_any = self.routes(RequestMethod::All, &parsed_request.request_line.path);
        let always = self.always(Ghost(parsed_request.request_line.path@));
        let ghost a = match_views(by_method@);
        proof {
            let request = parsed_request.request_line;
            assert(a == self@.own_matches(request.method, request.path@));
        }
        let ghost b = match_views(by_any@);
        let ghost c = match_views(always@);
        let ghost order = merged(a, b, c, 0, 0, 0);
        let ghost before = *res;
        let ghost mut flows = Seq::<Flow>::empty();
        let ghost mut states = seq![*res];
        let mut i: usize = 0;
        let mut j: usize = 0;
        let mut k: usize = 0;
        proof {
            lemma_chain_start(order, parsed_request, before);
        }
        loop
            invariant_except_break
                forall|t: int| 0 <= t < flows.len() ==> #[trigger] flows[t] == Flow::Next,
            invariant
                a == match_views(by_method@),
                b == match_views(by_any@),
                c == match_views(always@),
                flows.len() <= order.len(),
                order == order.take(flows.len() as int) + merged(
                    a,
                    b,
                    c,
                    i as int,
                    j as int,
                    k as int,
                ),
                chain(order, parsed_request, before, *res, flows, states),
            ensures
                served(order, parsed_request, before, *res, flows, states),
            decreases left(a, i as int) + left(b, j as int) + left(c, k as int),
        {
            if res.has_body {
                break;
            }
            let ghost n = flows.len() as int;
            let found = match smallest(&by_method, &by_any, &always, i, j, k) {
                Some(Source::Method) => {
                    assert(i < by_method.len());
                    i += 1;
                    &by_method[i - 1]
                },
                Some(Source::Any) => {
                    assert(j < by_any.len());
                    j += 1;
                    &by_any[j - 1]
                },
                Some(Source::Middleware) => {
                    assert(k < always.len());
                    k += 1;
                    &always[k - 1]
                },
                None => {
                    break;
                },
            };
            proof {
                let rest = merged(a, b, c, i as int, j as int, k as int);
                lemma_order_step(order, n, found@, rest);
            }
            let matched = MatchedRequest { request: &parsed_request, vars: &found.vars };
            let ghost entering = *res;
            let flow = found.data.handle(&matched, res);
            proof {
                lemma_chain_step(
                    order,
                    parsed_request,
                    before,
                    entering,
                    *res,
                    flows,
                    states,
                    flow,
                );
                flows = flows.push(flow);
                states = states.push(*res);
            }
            if !flow.should_continue() {
                break;
            }
        }
        proof {
            let request = parsed_request.request_line;
            assert(served(
                self@.dispatch_order(request.method, request.path@),
                parsed_request,
                *old(res),
                *res,
                flows,
                states,
            ));
        }
    }

    /// Takes over the handlers of `router`, each behind the handlers that
    /// stand in the same place here, and with its index moved on by the
    /// number of handlers registered here. The counter then counts the
    /// handlers of both.
    pub fn append(&mut self, router: Router)
        requires
            old(self).wf(),
            router.wf(),
            old(self).route_counter + router.route_counter <= usize::MAX,
        ensures
            final(self).wf(),
            final(self)@ == old(self)@.appended(router@),
            final(self).paths.methods() == old(self).paths.methods().union(router.paths.methods()),
    {
        let ghost before = self@;
        let ghost other = router@;
        let self_count = self.route_counter;
        let Router { route_counter: other_count, middlewares, paths } = router;
        proof {
            assert forall|method: RequestMethod| #[trigger]
                shiftable(paths@[method], self_count) by {
                assert(store_below(other.routes[method], other.counter));
            }
        }
        self.paths.extend(paths, self_count);
        let ghost methods = self.paths.methods();
        for entry in it: middlewares
            invariant
                it.seq() == middlewares@,
                other.middleware == Seq::new(middlewares@.len(), |i: int| middlewares@[i]@),
                other.wf(),
                other.counter + self_count <= usize::MAX,
                self.route_counter == self_count,
                self@.routes == Map::total(
                    |method: RequestMethod|
                        joined(before.routes[method], other.routes[method], self_count),
                ),
                self.paths.wf(),
                self.paths.methods() == methods,
                self@.middleware == before.middleware + shifted_all(
                    other.middleware.take(it.index() as int),
                    self_count,
                ),
        {
            let ghost k = it.index() as int;
            let ghost done = self@.middleware;
            proof {
                assert(entry@ == other.middleware[k]);
            }
            let moved = Closures { closure: entry.closure, index: entry.index + self_count };
            self.middlewares.push(moved);
            proof {
                assert(self@.middleware == done.push(moved@));
            }
        }
        self.route_counter += other_count;
        proof {
            assert(other.middleware.take(other.middleware.len() as int) == other.middleware);
            lemma_appended_wf(before, other);
        }
    }
}

/// Appending a well-formed registry to a well-formed registry gives a
/// well-formed registry, if the counter has room for both.
pub proof fn lemma_appended_wf(first: Registry, second: Registry)
    requires
        first.wf(),
        second.wf(),
        first.counter + second.counter <= usize::MAX,
    ensures
        first.appended(second).wf(),
{
    let both = first.appended(second);
    let shift = first.counter as usize;
    assert forall|method: RequestMethod| #[trigger]
        store_below(both.routes[method], both.counter) by {
        let a = first.routes[method];
        let b = second.routes[method];
        assert(store_below(a, first.counter));
        assert(store_below(b, second.counter));
        let store = both.routes[method];
        assert forall|keys: Seq<SegmentKey>, i: int| 0 <= i < store[keys].len() implies (
        #[trigger] store[keys][i]).index < both.counter by {
            if i < a[keys].len() {
                assert(store[keys][i] == a[keys][i]);
            } else {
                let j = i - a[keys].len();
                assert(store[keys][i] == b[keys][j].shifted(shift));
                assert(b[keys][j].index < second.counter);
            }
        }
    }
    let n = first.middleware.len() as int;
    let all = both.middleware;
    assert forall|i: int| 0 <= i < all.len() implies (#[trigger] all[i]).index < both.counter && (i
        < n ==> all[i].index < first.counter) && (i >= n ==> all[i].index == second.middleware[i
        - n].index + shift) by {
        if i < n {
            assert(both.middleware[i] == first.middleware[i]);
        } else {
            assert(both.middleware[i] == second.middleware[i - n].shifted(shift));
            assert(second.middleware[i - n].index < second.counter);
        }
    }
    assert forall|i: int, j: int| 0 <= i < j < both.middleware.len() implies (
    #[trigger] both.middleware[i]).index < (#[trigger] both.middleware[j]).index by {
        if j < n {
            assert(first.middleware[i].index < first.middleware[j].index);
        } else if i >= n {
            assert(second.middleware[i - n].index < second.middleware[j - n].index);
        }
    }
    assert forall|m: RequestMethod, k: Seq<SegmentKey>, i: int| both.holds(m, k, i) implies (i
        < first.routes[m][k].len() && first.holds(m, k, i) && #[trigger] both.index_at(m, k, i)
        == first.index_at(m, k, i) && first.index_at(m, k, i) < first.counter) || (i
        >= first.routes[m][k].len() && second.holds(m, k, i - first.routes[m][k].len())
        && both.index_at(m, k, i) == second.index_at(m, k, i - first.routes[m][k].len()) + shift
        && second.index_at(m, k, i - first.routes[m][k].len()) < second.counter) by {
        assert(store_below(first.routes[m], first.counter));
        assert(store_below(second.routes[m], second.counter));
        let held = first.routes[m][k].len() as int;
        if i < held {
            assert(both.routes[m][k][i] == first.routes[m][k][i]);
        } else {
            assert(both.routes[m][k][i] == second.routes[m][k][i - held].shifted(shift));
        }
    }
    assert(both.distinct_indices()) by {
        assert forall|
            m1: RequestMethod,
            k1: Seq<SegmentKey>,
            i1: int,
            m2: RequestMethod,
            k2: Seq<SegmentKey>,
            i2: int,
        |
            both.holds(m1, k1, i1) && both.holds(m2, k2, i2) && #[trigger] both.index_at(
                m1,
                k1,
                i1,
            ) == #[trigger] both.index_at(m2, k2, i2) implies m1 == m2 && k1 == k2 && i1 == i2 by {
            let held1 = first.routes[m1][k1].len() as int;
            let held2 = first.routes[m2][k2].len() as int;
            if i1 < held1 && i2 < held2 {
                assert(first.index_at(m1, k1, i1) == first.index_at(m2, k2, i2));
            } else if i1 >= held1 && i2 >= held2 {
                assert(second.index_at(m1, k1, i1 - held1) == second.index_at(
                    m2,
                    k2,
                    i2 - held2,
                ));
            }
        }
        assert forall|m: RequestMethod, k: Seq<SegmentKey>, i: int, j: int|
            both.holds(m, k, i) && 0 <= j < both.middleware.len() implies #[trigger] both.index_at(
            m,
            k,
            i,
        ) != (#[trigger] both.middleware[j]).index by {
            let held = first.routes[m][k].len() as int;
            if i < held && j < n {
                assert(first.index_at(m, k, i) != first.middleware[j].index);
            } else if i >= held && j >= n {
                assert(second.index_at(m, k, i - held) != second.middleware[j - n].index);
            }
        }
    }
}

impl Default for Router {
    /// A router without handlers.
    fn default() -> (router: Router)
        ensures
            router.wf(),
            router@ == Registry::empty(),
    {
        Router::new()
    }
}

impl Route for Router {
    open spec fn registry(&self) -> Registry {
        self@
    }

    open spec fn sound(&self) -> bool {
        self.wf()
    }

    fn add_route(&mut self, path: &str, closure: Closure) -> (r: RouterResult)
        ensures
            final(self).paths.methods() == (if r is Ok {
                old(self).paths.methods().insert(RequestMethod::All)
            } else {
                old(self).paths.methods()
            }),
            final(self).middlewares == old(self).middlewares,
    {
        self.register(RequestMethod::All, path, closure)
    }

    fn head(&mut self, path: &str, closure: Closure) -> (r: RouterResult)
        ensures
            final(self).paths.methods() == (if r is Ok {
                old(self).paths.methods().insert(RequestMethod::Head)
            } else {
                old(self).paths.methods()
            }),
            final(self).middlewares == old(self).middlewares,
    {
        self.register(RequestMethod::Head, path, closure)
    }

    fn post(&mut self, path: &str, closure: Closure) -> (r: RouterResult)
        ensures
            final(self).paths.methods() == (if r is Ok {
                old(self).paths.methods().insert(RequestMethod::Post)
            } else {
                old(self).paths.methods()
            }),
            final(self).middlewares == old(self).middlewares,
    {
        self.register(RequestMethod::Post, path, closure)
    }

    fn get(&mut self, path: &str, closure: Closure) -> (r: RouterResult)
        ensures
            final(self).paths.methods() == (if r is Ok {
                old(self).paths.methods().insert(RequestMethod::Get)
            } else {
                old(self).paths.methods()
            }),
            final(self).middlewares == old(self).middlewares,
    {
        self.register(RequestMethod::Get, path, closure)
    }

    fn put(&mut self, path: &str, closure: Closure) -> (r: RouterResult)
        ensures
            final(self).paths.methods() == (if r is Ok {
                old(self).paths.methods().insert(RequestMethod::Put)
            } else {
                old(self).paths.methods()
            }),
            final(self).middlewares == old(self).middlewares,
    {
        self.register(RequestMethod::Put, path, closure)
    }

    fn delete(&mut self, path: &str, closure: Closure) -> (r: RouterResult)
        ensures
            final(self).paths.methods() == (if r is Ok {
                old(self).paths.methods().insert(RequestMethod::Delete)
            } else {
                old(self).paths.methods()
            }),
            final(self).middlewares == old(self).middlewares,
    {
        self.register(RequestMethod::Delete, path, closure)
    }

    fn patch(&mut self, path: &str, closure: Closure) -> (r: RouterResult)
        ensures
            final(self).paths.methods() == (if r is Ok {
                old(self).paths.methods().insert(RequestMethod::Patch)
            } else {
                old(self).paths.methods()
            }),
            final(self).middlewares == old(self).middlewares,
    {
        self.register(RequestMethod::Patch, path, closure)
    }

    fn add(&mut self, entity: Closure) -> (r: RouterResult)
        ensures
            final(self).paths == old(self).paths,
            final(self).paths.methods() == old(self).paths.methods(),
            final(self).middlewares@ == old(self).middlewares@.push(
                (Closures { closure: entity, index: old(self).route_counter }),
            ),
    {
        let ghost before = self@;
        let index = self.route_counter;
        self.middlewares.push(Closures { closure: entity, index });
        self.route_counter += 1;
        proof {
            assert(self@ == before.with_middleware(entity));
            lemma_with_wf(before, Registration::Middleware { closure: entity });
        }
        Ok(index)
    }
}

} // verus!
