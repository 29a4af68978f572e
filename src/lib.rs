//! The wire-protocol core of an HTTP/1.1 origin server: a message codec, a chain of
//! request handlers with an exact-path router, and the WebSocket upgrade handshake with
//! its frame codec.
use vstd::prelude::*;

pub mod http;
pub mod middleware;
pub mod routing;
pub mod text;
pub mod websocket;

use http::{parse_spec, Request, Response, Status, Version};
use middleware::Middleware;

verus! {

/// Process settings handed to the accept loop.
pub struct Config {
    pub port: u16,
}

impl Config {
    pub fn new(port: u16) -> (r: Config)
        ensures
            r.port == port,
    {
        Config { port }
    }

    pub fn port(&self) -> (r: u16)
        ensures
            r == self.port,
    {
        self.port
    }
}

/// What the chain `ms[i..]` may answer to `req`: the first answer that is not NotFound,
/// or NotFound when every handler gives NotFound.
pub open spec fn chain_from<M: Middleware>(
    ms: Seq<M>,
    req: Request,
    r: Result<Response, middleware::Error>,
    i: int,
) -> bool
    decreases ms.len() - i,
{
    if i < 0 || i >= ms.len() {
        r == Err::<Response, middleware::Error>(middleware::Error::NotFound)
    } else {
        ||| (r != Err::<Response, middleware::Error>(middleware::Error::NotFound) && ms[i].answers(req, r))
        ||| (ms[i].answers(req, Err(middleware::Error::NotFound)) && chain_from(ms, req, r, i + 1))
    }
}

/// The status that stands for a dispatch error.
pub open spec fn dispatch_error_status(e: middleware::Error) -> Status {
    match e {
        middleware::Error::NotFound => Status::NotFound,
        middleware::Error::MethodNotAllowed => Status::MethodNotAllowed,
    }
}

/// The status that stands for a parse error.
pub open spec fn parse_error_status(e: http::Error) -> Status {
    match e {
        http::Error::UnsupportedVersion => Status::VersionNotSupported,
        http::Error::UnknownMethod => Status::BadRequest,
        http::Error::MalformedRequest => Status::BadRequest,
    }
}

/// Whether `r` is an HTTP/1.1 response with `status`, no headers and no body.
pub open spec fn is_bare(r: Response, status: Status) -> bool {
    &&& r.version == Version::OneDotOne
    &&& r.status == status
    &&& r.headers@.len() == 0
    &&& r.body@.len() == 0
}

/// Whether `r` is the response for the dispatch outcome `d`.
pub open spec fn responds(d: Result<Response, middleware::Error>, r: Response) -> bool {
    match d {
        Ok(x) => r == x,
        Err(e) => is_bare(r, dispatch_error_status(e)),
    }
}

/// Offers each request to a chain of handlers in order.
pub struct Application<M: Middleware> {
    middleware: Vec<M>,
}

impl<M: Middleware> Application<M> {
    pub closed spec fn layers(&self) -> Seq<M> {
        self.middleware@
    }

    /// Every handler of the chain can answer.
    pub open spec fn ready(&self) -> bool {
        forall|i: int| 0 <= i < self.layers().len() ==> (#[trigger] self.layers()[i]).ready()
    }

    pub fn new(middleware: Vec<M>) -> (r: Application<M>)
        ensures
            r.layers() == middleware@,
    {
        Application { middleware }
    }

    /// Asks each handler in turn; the first answer that is not NotFound is the result.
    pub fn dispatch_to_middleware(&self, request: &Request) -> (r: Result<Response, middleware::Error>)
        requires
            self.ready(),
        ensures
            chain_from(self.layers(), *request, r, 0),
    {
        let mut i: usize = 0;
        while i < self.middleware.len()
            invariant
                self.ready(),
                i <= self.layers().len(),
                forall|x: Result<Response, middleware::Error>|
                    #[trigger] chain_from(self.layers(), *request, x, i as int) ==> chain_from(
                        self.layers(),
                        *request,
                        x,
                        0,
                    ),
            decreases self.layers().len() - i,
        {
            assert(self.layers()[i as int].ready());
            let res = self.middleware[i].answer(request);
            match res {
                Err(middleware::Error::NotFound) => {
                    assert forall|x: Result<Response, middleware::Error>|
                        #[trigger] chain_from(self.layers(), *request, x, i + 1) implies chain_from(
                        self.layers(),
                        *request,
                        x,
                        0,
                    ) by {
                        assert(chain_from(self.layers(), *request, x, i as int));
                    }
                },
                _ => {
                    assert(chain_from(self.layers(), *request, res, i as int));
                    return res;
                },
            }
            i += 1;
        }
        let r = Err(middleware::Error::NotFound);
        assert(chain_from(self.layers(), *request, r, i as int));
        r
    }

    /// The chain's response, or a bare 404 or 405 for a dispatch error.
    pub fn respond_to(&self, req: &Request) -> (r: Response)
        requires
            self.ready(),
        ensures
            exists|d: Result<Response, middleware::Error>|
                chain_from(self.layers(), *req, d, 0) && responds(d, r),
    {
        let d = self.dispatch_to_middleware(req);
        let r = match d {
            Ok(res) => res,
            Err(middleware::Error::MethodNotAllowed) => Response::new(Status::MethodNotAllowed),
            Err(middleware::Error::NotFound) => Response::new(Status::NotFound),
        };
        assert(responds(d, r));
        r
    }

    /// Parses the text of a request and answers it; a parse error gives a bare 400 or 505.
    pub fn respond_to_str(&self, req_str: &str) -> (r: Response)
        requires
            self.ready(),
        ensures
            match parse_spec(req_str@) {
                Ok(parts) => exists|req: Request, d: Result<Response, middleware::Error>|
                    req.parts() == parts && chain_from(self.layers(), req, d, 0) && responds(d, r),
                Err(e) => is_bare(r, parse_error_status(e)),
            },
    {
        match Request::parse(req_str) {
            Ok(req) => self.respond_to(&req),
            Err(e) => match e {
                http::Error::UnsupportedVersion => Response::new(Status::VersionNotSupported),
                http::Error::UnknownMethod => Response::new(Status::BadRequest),
                http::Error::MalformedRequest => Response::new(Status::BadRequest),
            },
        }
    }
}

} // verus!
