use turbo_bernd::http::{self, Request, Response, Status};
use turbo_bernd::middleware::{self, Middleware};
use turbo_bernd::routing::Router;

fn create_dummy_response() -> Response {
    Response::new(Status::OK).body("Hello, test!", mime::TEXT_PLAIN)
}

#[test]
fn register() {
    let mut router = Router::new();
    router.register("/test", http::Method::Get, |_: &Request| create_dummy_response());

    let dummy_request = Request::get("/test");
    let response = router.dispatch(&dummy_request).unwrap();

    assert_eq!(response, create_dummy_response());
}

#[test]
fn dispatch_returns_response() {
    let mut router = Router::new();
    router.register("/test", http::Method::Get, |_: &Request| create_dummy_response());

    let dummy_request = Request::get("/test");
    let response = router.dispatch(&dummy_request).unwrap();

    assert_eq!(response, create_dummy_response());
}

#[test]
fn dispatch_returns_not_found() {
    let mut router = Router::new();
    router.register("/not_test", http::Method::Get, |_: &Request| create_dummy_response());

    let dummy_request = Request::get("/test");
    let result = router.dispatch(&dummy_request);

    assert_eq!(result, Err(middleware::Error::NotFound));
}

#[test]
fn dispatch_returns_method_not_allowed() {
    let mut router = Router::new();
    router.register("/test", http::Method::Post, |_: &Request| create_dummy_response());

    let dummy_request = Request::get("/test");
    let result = router.dispatch(&dummy_request);

    assert_eq!(result, Err(middleware::Error::MethodNotAllowed));
}

fn answer_a(_: &Request) -> Response {
    Response::new(Status::OK).header(("From", "A"))
}

fn answer_b(_: &Request) -> Response {
    Response::new(Status::OK).header(("From", "B"))
}

#[test]
fn only_get_registered() {
    let mut router: Router<fn(&Request) -> Response> = Router::new();
    router.register("/test", http::Method::Get, answer_a);
    assert_eq!(router.dispatch(&Request::post("/test")), Err(middleware::Error::MethodNotAllowed));
    assert_eq!(router.dispatch(&Request::get("/other")), Err(middleware::Error::NotFound));
    assert_eq!(router.answer(&Request::get("/test")).unwrap().headers.get("From").unwrap(), "A");
}

#[test]
fn last_registration_wins() {
    let mut router: Router<fn(&Request) -> Response> = Router::new();
    router.register("/test", http::Method::Get, answer_a);
    router.register("/test", http::Method::Post, answer_a);
    router.register("/test", http::Method::Get, answer_b);
    let res = router.dispatch(&Request::get("/test")).unwrap();
    assert_eq!(res.headers.get("From").unwrap(), "B");
    let res = router.dispatch(&Request::post("/test")).unwrap();
    assert_eq!(res.headers.get("From").unwrap(), "A");
}

#[test]
fn paths_are_exact() {
    let mut router: Router<fn(&Request) -> Response> = Router::new();
    router.register("/test", http::Method::Get, answer_a);
    assert_eq!(router.dispatch(&Request::get("/test/")), Err(middleware::Error::NotFound));
    assert_eq!(router.dispatch(&Request::get("/TEST")), Err(middleware::Error::NotFound));
}
