//! Exact-path routing of requests to handler functions.
use vstd::prelude::*;

use crate::http::{Method, Request, Response};
use crate::middleware::{self, Middleware};

verus! {

/// One entry of a route table.
pub struct Route<F> {
    pub path: String,
    pub method: Method,
    pub handler: F,
}

/// A route table as the contracts see it: (path, method, handler) in registration order.
pub type RouteList<F> = Seq<(Seq<char>, Method, F)>;

/// The first entry at or after `i` for `path` and `method`, or -1.
pub open spec fn route_from<F>(t: RouteList<F>, path: Seq<char>, method: Method, i: int) -> int
    decreases t.len() - i,
{
    if i < 0 || i >= t.len() {
        -1
    } else if t[i].0 == path && t[i].1 == method {
        i
    } else {
        route_from(t, path, method, i + 1)
    }
}

pub open spec fn route_index<F>(t: RouteList<F>, path: Seq<char>, method: Method) -> int {
    route_from(t, path, method, 0)
}

/// Whether some entry serves `path`, for any method.
pub open spec fn has_path<F>(t: RouteList<F>, path: Seq<char>) -> bool {
    exists|i: int| 0 <= i < t.len() && #[trigger] t[i].0 == path
}

/// The table after registering `f` for `path` and `method`: the last registration wins.
pub open spec fn registered<F>(t: RouteList<F>, path: Seq<char>, method: Method, f: F) -> RouteList<F> {
    let i = route_index(t, path, method);
    if 0 <= i < t.len() {
        t.update(i, (path, method, f))
    } else {
        t.push((path, method, f))
    }
}

pub proof fn lemma_route_from_bounds<F>(t: RouteList<F>, path: Seq<char>, method: Method, i: int)
    ensures
        route_from(t, path, method, i) == -1 || (0 <= i <= route_from(t, path, method, i) < t.len()
            && t[route_from(t, path, method, i)].0 == path && t[route_from(
            t,
            path,
            method,
            i,
        )].1 == method),
    decreases t.len() - i,
{
    if 0 <= i < t.len() && !(t[i].0 == path && t[i].1 == method) {
        lemma_route_from_bounds(t, path, method, i + 1);
    }
}

/// Maps request paths and methods to handler functions.
pub struct Router<F: Fn(&Request) -> Response> {
    routes: Vec<Route<F>>,
}

impl<F: Fn(&Request) -> Response> Router<F> {
    pub closed spec fn table(&self) -> RouteList<F> {
        self.routes@.map_values(|r: Route<F>| (r.path@, r.method, r.handler))
    }

    /// Every stored handler accepts every request.
    pub closed spec fn handlers_total(&self) -> bool {
        forall|i: int, req: &Request|
            0 <= i < self.routes@.len() ==> #[trigger] self.routes@[i].handler.requires((req,))
    }

    /// What dispatching `req` may give: the handler's response for a registered path and
    /// method, MethodNotAllowed for a known path with another method, NotFound otherwise.
    pub open spec fn dispatches(&self, req: Request, r: Result<Response, middleware::Error>) -> bool {
        let t = self.table();
        let i = route_index(t, req.uri.path@, req.method);
        if 0 <= i < t.len() {
            r is Ok && call_ensures(t[i].2, (&req,), r->Ok_0)
        } else if has_path(t, req.uri.path@) {
            r == Err::<Response, middleware::Error>(middleware::Error::MethodNotAllowed)
        } else {
            r == Err::<Response, middleware::Error>(middleware::Error::NotFound)
        }
    }

    pub fn new() -> (r: Self)
        ensures
            r.handlers_total(),
            r.table() == Seq::<(Seq<char>, Method, F)>::empty(),
    {
        let r = Router { routes: Vec::new() };
        assert(r.table() =~= Seq::<(Seq<char>, Method, F)>::empty());
        r
    }

    /// Registers `f` for `path` and `method`, replacing an earlier registration of the pair.
    pub fn register(&mut self, path: &str, method: Method, f: F)
        requires
            old(self).handlers_total(),
            forall|req: &Request| #[trigger] f.requires((req,)),
        ensures
            final(self).handlers_total(),
            final(self).table() == registered(old(self).table(), path@, method, f),
    {
        proof {
            lemma_route_from_bounds(self.table(), path@, method, 0);
        }
        let owned = path.to_owned();
        let mut i: usize = 0;
        while i < self.routes.len()
            invariant
                i <= self.routes@.len(),
                self.table() == old(self).table(),
                self.routes@ == old(self).routes@,
                self.handlers_total(),
                forall|req: &Request| #[trigger] f.requires((req,)),
                owned@ == path@,
                route_index(self.table(), path@, method) == route_from(
                    self.table(),
                    path@,
                    method,
                    i as int,
                ),
            decreases self.routes@.len() - i,
        {
            if self.routes[i].path == owned && self.routes[i].method == method {
                let route = Route { path: owned, method, handler: f };
                let ghost before = self.routes@;
                self.routes.set(i, route);
                assert forall|j: int, req: &Request| 0 <= j < self.routes@.len() implies #[trigger] self.routes@[j].handler.requires((req,)) by {
                    if j != i {
                        assert(self.routes@[j] == before[j]);
                    }
                }
                assert(self.handlers_total());
                assert(self.table() =~= registered(old(self).table(), path@, method, f));
                return;
            }
            i += 1;
        }
        let ghost before = self.routes@;
        self.routes.push(Route { path: owned, method, handler: f });
        assert forall|j: int, req: &Request| 0 <= j < self.routes@.len() implies #[trigger] self.routes@[j].handler.requires((req,)) by {
            if j < before.len() {
                assert(self.routes@[j] == before[j]);
            }
        }
        assert(self.table() =~= registered(old(self).table(), path@, method, f));
    }

    /// Looks up the request's exact path, then its method, and calls the handler found.
    pub fn dispatch(&self, req: &Request) -> (r: Result<Response, middleware::Error>)
        requires
            self.handlers_total(),
        ensures
            self.dispatches(*req, r),
    {
        proof {
            lemma_route_from_bounds(self.table(), req.uri.path@, req.method, 0);
        }
        let mut path_known = false;
        let mut i: usize = 0;
        while i < self.routes.len()
            invariant
                i <= self.routes@.len(),
                self.handlers_total(),
                route_index(self.table(), req.uri.path@, req.method) == route_from(
                    self.table(),
                    req.uri.path@,
                    req.method,
                    i as int,
                ),
                path_known ==> has_path(self.table(), req.uri.path@),
                !path_known ==> forall|j: int|
                    0 <= j < i ==> #[trigger] self.routes@[j].path@ != req.uri.path@,
            decreases self.routes@.len() - i,
        {
            if self.routes[i].path == req.uri.path {
                assert(self.table()[i as int].0 == req.uri.path@);
                path_known = true;
                if self.routes[i].method == req.method {
                    let res = (self.routes[i].handler)(req);
                    return Ok(res);
                }
            }
            i += 1;
        }
        if path_known {
            Err(middleware::Error::MethodNotAllowed)
        } else {
            assert(!has_path(self.table(), req.uri.path@)) by {
                if has_path(self.table(), req.uri.path@) {
                    let j = choose|j: int|
                        0 <= j < self.table().len() && #[trigger] self.table()[j].0
                            == req.uri.path@;
                    assert(self.routes@[j].path@ == req.uri.path@);
                }
            }
            Err(middleware::Error::NotFound)
        }
    }
}

impl<F: Fn(&Request) -> Response> Middleware for Router<F> {
    open spec fn ready(&self) -> bool {
        self.handlers_total()
    }

    open spec fn answers(&self, request: Request, result: Result<Response, middleware::Error>) -> bool {
        self.dispatches(request, result)
    }

    fn answer(&self, request: &Request) -> (result: Result<Response, middleware::Error>) {
        self.dispatch(request)
    }
}

} // verus!
