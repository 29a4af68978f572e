use std::cell::Cell;

use turbo_bernd::http::{self, Request, Response, Status};
use turbo_bernd::middleware::{self, FileMiddleware, Middleware};
use turbo_bernd::routing::Router;
use turbo_bernd::{Application, Config};

struct MockMiddleware {
    result: Result<Response, middleware::Error>,
    calls: Cell<usize>,
}

impl MockMiddleware {
    fn new(result: Result<Response, middleware::Error>) -> MockMiddleware {
        MockMiddleware { result, calls: Cell::new(0) }
    }
}

impl<'a> Middleware for &'a MockMiddleware {
    fn answer(&self, _request: &Request) -> Result<Response, middleware::Error> {
        self.calls.set(self.calls.get() + 1);
        self.result.clone()
    }
}

#[test]
fn mytest() {
    let mock = MockMiddleware::new(Ok(Response::new(Status::OK)));

    let req = Request::get("/hello");

    assert_eq!(Ok(Response::new(Status::OK)), (&mock).answer(&req));
    assert_eq!(mock.calls.get(), 1);
}

#[test]
fn dispatch_to_middleware_respects_ordering() {
    let mock_a = MockMiddleware::new(Ok(Response::new(Status::OK)));
    let mock_b = MockMiddleware::new(Ok(Response::new(Status::OK)));

    let application = Application::new(vec![&mock_a, &mock_b]);

    let req = Request::get("/");

    let res = application.dispatch_to_middleware(&req);

    assert_eq!(res, Ok(Response::new(Status::OK)));
    assert_eq!(mock_a.calls.get(), 1);
    assert_eq!(mock_b.calls.get(), 0);
}

#[test]
fn dispatch_to_middleware_skips_not_found() {
    let mock_a = MockMiddleware::new(Err(middleware::Error::NotFound));
    let mock_b = MockMiddleware::new(Ok(Response::new(Status::OK)));

    let application = Application::new(vec![&mock_a, &mock_b]);

    let req = Request::get("/");

    let res = application.dispatch_to_middleware(&req);

    assert_eq!(res, Ok(Response::new(Status::OK)));
    assert_eq!(mock_a.calls.get(), 1);
    assert_eq!(mock_b.calls.get(), 1);
}

#[test]
fn dispatch_stops_at_method_not_allowed() {
    let mock_a = MockMiddleware::new(Err(middleware::Error::MethodNotAllowed));
    let mock_b = MockMiddleware::new(Ok(Response::new(Status::OK)));
    let application = Application::new(vec![&mock_a, &mock_b]);
    let res = application.dispatch_to_middleware(&Request::get("/"));
    assert_eq!(res, Err(middleware::Error::MethodNotAllowed));
    assert_eq!(mock_b.calls.get(), 0);
    assert_eq!(application.respond_to(&Request::get("/")).status, Status::MethodNotAllowed);
}

#[test]
fn dispatch_all_not_found() {
    let mock_a = MockMiddleware::new(Err(middleware::Error::NotFound));
    let mock_b = MockMiddleware::new(Err(middleware::Error::NotFound));
    let application = Application::new(vec![&mock_a, &mock_b]);
    let res = application.dispatch_to_middleware(&Request::get("/"));
    assert_eq!(res, Err(middleware::Error::NotFound));
    assert_eq!(mock_a.calls.get(), 1);
    assert_eq!(mock_b.calls.get(), 1);
}

#[test]
fn respond_to_returns_error_responses() {
    let application: Application<&MockMiddleware> = Application::new(vec![]);

    let req = Request::get("/test");
    let res = application.respond_to(&req);

    assert_eq!(res.status, Status::NotFound);
}

#[test]
fn respond_to_str_returns_error_responses() {
    let application: Application<&MockMiddleware> = Application::new(vec![]);

    let req_str = "GET /test HTTP/2.0\r\n\r\n";
    let res = application.respond_to_str(req_str);

    assert_eq!(res.status, Status::VersionNotSupported);
}

#[test]
fn respond_to_str_maps_parse_errors_to_bad_request() {
    let application: Application<&MockMiddleware> = Application::new(vec![]);
    assert_eq!(application.respond_to_str("BREW /pot HTTP/1.1\r\n\r\n").status, Status::BadRequest);
    assert_eq!(application.respond_to_str("GET /pot HTTP/1.1").status, Status::BadRequest);
    assert_eq!(application.respond_to_str("GET /pot HTTP/1.1\r\n\r\n").status, Status::NotFound);
}

/// A chain layer: a router, or the static files under a root with nothing readable there.
enum Layer<F: Fn(&Request) -> Response> {
    Routes(Router<F>),
    Files(FileMiddleware<'static>),
}

impl<F: Fn(&Request) -> Response> Middleware for Layer<F> {
    fn answer(&self, request: &Request) -> Result<Response, middleware::Error> {
        match self {
            Layer::Routes(router) => router.answer(request),
            Layer::Files(files) => {
                let path = files.file_path(request);
                FileMiddleware::respond_file(&path, None)
            }
        }
    }
}

#[test]
fn route_querying() {
    let mut router = Router::new();

    router.register("/hello", http::Method::Get, |_: &Request| {
        http::Response::new(http::Status::OK).body("Hello, world!", mime::TEXT_PLAIN)
    });

    let middleware = vec![Layer::Routes(router), Layer::Files(FileMiddleware::new("tests/mock"))];

    let application = Application::new(middleware);

    let req_route = Request::get("/hello");
    let res = application.respond_to(&req_route);
    assert_eq!(res.body, "Hello, world!");
    assert_eq!(res.headers.get("Content-Length").unwrap(), "13");
    assert_eq!(res.headers.get("Content-Type").unwrap(), "text/plain");

    let req_wrong_route = Request::get("unknown");
    let res = application.respond_to(&req_wrong_route);
    assert_eq!(res.status, http::Status::NotFound);
}

#[test]
fn route_and_filename_equal_picks_first() {
    let mut router = Router::new();

    router.register("/test_one/test.html", http::Method::Get, |_: &Request| {
        http::Response::new(http::Status::OK).body("Hello from router!", mime::TEXT_PLAIN)
    });

    let middleware = vec![Layer::Routes(router), Layer::Files(FileMiddleware::new("tests/mock"))];

    let application = Application::new(middleware);

    let req_double_route = Request::get("/test_one/test.html");
    let res = application.respond_to(&req_double_route);

    assert_eq!(res.body, "Hello from router!");
}

#[test]
fn config_keeps_port() {
    assert_eq!(Config::new(5000).port(), 5000);
}

#[test]
fn file_middleware_pieces() {
    let files = FileMiddleware::new("tests/mock");
    assert_eq!(files.file_path(&Request::get("/test_one/test.html")), "tests/mock/test_one/test.html");
    let entries = vec![("test_one".to_string(), true), ("a.txt".to_string(), false)];
    assert_eq!(
        FileMiddleware::listing("/", &entries),
        "<html><body><p><a href=\"/test_one/\">test_one/</a></p><p><a href=\"/a.txt\">a.txt</a></p></body></html>"
    );
    assert_eq!(FileMiddleware::respond_file("x.html", None), Err(middleware::Error::NotFound));
    let res = FileMiddleware::respond_file("tests/mock/a.HTML", Some("<p>hi</p>".to_string())).unwrap();
    assert_eq!(res.status, Status::OK);
    assert_eq!(res.body, "<p>hi</p>");
    assert_eq!(res.headers.get("Content-Type").unwrap(), "text/html");
    assert_eq!(res.headers.get("Content-Length").unwrap(), "9");
    assert_eq!(res.headers.len(), 2);
    let res = FileMiddleware::respond_file("notes.txt", Some("h\u{e9}".to_string())).unwrap();
    assert_eq!(res.headers.get("Content-Type").unwrap(), "text/plain");
    assert_eq!(res.headers.get("Content-Length").unwrap(), "3");
    assert_eq!(FileMiddleware::respond_listing("/", None), Err(middleware::Error::NotFound));
    let res = FileMiddleware::respond_listing("/", Some(entries)).unwrap();
    assert!(res.body.contains("test_one/"));
    assert_eq!(res.headers.get("Content-Type").unwrap(), "text/html");
    assert_eq!(*res.headers.get("Content-Length").unwrap(), res.body.len().to_string());
}

#[test]
fn media_types_from_extension() {
    assert_eq!(turbo_bernd::middleware::media_type_of("a/b.css"), "text/css");
    assert_eq!(turbo_bernd::middleware::media_type_of("b.JPEG"), "image/jpeg");
    assert_eq!(turbo_bernd::middleware::media_type_of("page.htm"), "text/html");
    assert_eq!(turbo_bernd::middleware::media_type_of("app.js"), "application/javascript");
    assert_eq!(turbo_bernd::middleware::media_type_of("data.json"), "application/json");
    assert_eq!(turbo_bernd::middleware::media_type_of("README"), "application/octet-stream");
}

fn from_a(_: &Request) -> Response {
    Response::new(Status::OK).header(("From", "A"))
}

fn from_b(_: &Request) -> Response {
    Response::new(Status::OK).header(("From", "B"))
}

#[test]
fn chain_first_router_wins() {
    let mut a: Router<fn(&Request) -> Response> = Router::new();
    a.register("/test", http::Method::Get, from_a);
    let mut b: Router<fn(&Request) -> Response> = Router::new();
    b.register("/test", http::Method::Get, from_b);
    let application = Application::new(vec![a, b]);
    let res = application.respond_to(&Request::get("/test"));
    assert_eq!(res.headers.get("From").unwrap(), "A");
}

#[test]
fn chain_not_found_falls_through() {
    let mut a: Router<fn(&Request) -> Response> = Router::new();
    a.register("/other", http::Method::Get, from_a);
    let mut b: Router<fn(&Request) -> Response> = Router::new();
    b.register("/test", http::Method::Get, from_b);
    let application = Application::new(vec![a, b]);
    let res = application.dispatch_to_middleware(&Request::get("/test")).unwrap();
    assert_eq!(res.headers.get("From").unwrap(), "B");
    let res = application.respond_to_str("GET /missing HTTP/1.1\r\n\r\n");
    assert_eq!(res.status, Status::NotFound);
}
