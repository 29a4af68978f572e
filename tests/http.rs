use turbo_bernd::http::{request_line, Error, Method, Request, Response, ResponseClass, Status, Uri, Version};

fn create_dummy_request_string() -> &'static str {
    "GET /hello.txt HTTP/1.1\r\n\
    User-Agent: curl/7.16.3 libcurl/7.16.3 OpenSSL/0.9.7l zlib/1.2.3\r\n\
    Host: www.example.com\r\n\
    Accept-Language: en, mi\r\n\
    \r\n\
    This is the body \r\nof the request.\r\n"
}

#[test]
fn request_parsing() {
    let http_req = create_dummy_request_string();

    let request = Request::parse(http_req).unwrap();

    assert_eq!(request.method, Method::Get);
    assert_eq!(request.uri, Uri::new("/hello.txt"));
    assert_eq!(request.version, Version::OneDotOne);
    assert_eq!(request.headers.len(), 3);
    assert_eq!(
        request.headers.get("User-Agent").unwrap(),
        "curl/7.16.3 libcurl/7.16.3 OpenSSL/0.9.7l zlib/1.2.3"
    );
    assert_eq!(request.headers.get("Host").unwrap(), "www.example.com");
    assert_eq!(request.headers.get("Accept-Language").unwrap(), "en, mi");
    assert_eq!(
        request.body,
        "This is the body \r\nof the request.\r\n".to_string()
    );
}

#[test]
fn method_parsing() {
    assert_eq!(Method::parse("GET"), Ok(Method::Get));
    assert_eq!(Method::parse("HEAD"), Ok(Method::Head));
    assert_eq!(Method::parse("POST"), Ok(Method::Post));
    assert_eq!(Method::parse("PUT"), Ok(Method::Put));
    assert_eq!(Method::parse("DELETE"), Ok(Method::Delete));
    assert_eq!(Method::parse("CONNECT"), Ok(Method::Connect));
    assert_eq!(Method::parse("OPTIONS"), Ok(Method::Options));
    assert_eq!(Method::parse("TRACE"), Ok(Method::Trace));

    assert_eq!(Method::parse("SOMETHING"), Err(Error::UnknownMethod));
}

#[test]
fn version_parsing() {
    assert_eq!(Version::parse("HTTP/1.1"), Ok(Version::OneDotOne));

    assert_eq!(Version::parse("XYZ/1.0"), Err(Error::UnsupportedVersion));
}

#[test]
fn request_building() {
    let get_req = Request::get("/test");
    assert_eq!(get_req.method, Method::Get);
    assert_eq!(get_req.uri.path, "/test");

    let post_req = Request::post("/test");
    assert_eq!(post_req.method, Method::Post);
    assert_eq!(post_req.uri.path, "/test");

    let post_req = post_req.body("Hello, world!", mime::TEXT_PLAIN);
    assert_eq!(post_req.body, "Hello, world!".to_string());
    assert_eq!(post_req.headers.get("Content-Length").unwrap(), "13");
    assert_eq!(post_req.headers.get("Content-Type").unwrap(), "text/plain");
}

#[test]
fn response_building() {
    let response = Response::new(Status::OK);
    assert_eq!(response.status, Status::OK);

    let response = response.body("Hello, world!", mime::TEXT_PLAIN);
    assert_eq!(response.body, "Hello, world!".to_string());
    assert_eq!(response.headers.get("Content-Length").unwrap(), "13");
    assert_eq!(response.headers.get("Content-Type").unwrap(), "text/plain");

    let response = response.header(("Hello", "World"));
    assert_eq!(response.headers.get("Hello").unwrap(), "World");
}

#[test]
fn response_formatting() {
    let response = Response::new(Status::OK)
        .body("Hello, world!", mime::TEXT_PLAIN)
        .header(("Hello", "World!"));

    let response_string = response.to_string();

    assert!(response_string.starts_with("HTTP/1.1 200 OK\r\n"));
    assert!(response_string.contains("Content-Length: 13\r\n"));
    assert!(response_string.contains("Content-Type: text/plain\r\n"));
    assert!(response_string.contains("Hello: World!\r\n"));
    assert!(response_string.ends_with("\r\nHello, world!"));
}

#[test]
fn response_serialises_headers_in_insertion_order() {
    let response = Response::new(Status::NotFound)
        .header(("B", "2"))
        .header(("A", "1"))
        .header(("b", "3"));
    assert_eq!(response.to_string(), "HTTP/1.1 404 Not Found\r\nb: 3\r\nA: 1\r\n\r\n");
    assert_eq!(
        response.to_bytes(),
        b"HTTP/1.1 404 Not Found\r\nb: 3\r\nA: 1\r\n\r\n".to_vec()
    );
}

#[test]
fn content_length_counts_bytes() {
    let response = Response::new(Status::OK).body_with_type("h\u{e9}llo", "text/plain");
    assert_eq!(response.headers.get("content-length").unwrap(), "6");
    assert_eq!(response.headers.get("CONTENT-TYPE").unwrap(), "text/plain");
    let empty = Response::new(Status::OK).body_with_type("", "text/html");
    assert_eq!(empty.headers.get("Content-Length").unwrap(), "0");
    let long = "x".repeat(1234);
    let response = Response::new(Status::OK).body_with_type(&long, "text/plain");
    assert_eq!(response.headers.get("Content-Length").unwrap(), "1234");
}

#[test]
fn header_lookup_ignores_case_and_last_write_wins() {
    let request = Request::parse("GET / HTTP/1.1\r\nhost: a\r\nHOST: b\r\nX:  spaced value \t\r\n\r\n").unwrap();
    assert_eq!(request.headers.len(), 2);
    assert_eq!(request.headers.get("Host").unwrap(), "b");
    assert_eq!(request.headers.get("x").unwrap(), "spaced value");
    assert!(request.headers.get("Missing").is_none());
}

#[test]
fn header_value_keeps_text_after_first_colon() {
    let request = Request::parse("GET / HTTP/1.1\r\nHost: example.com:8080\r\n\r\n").unwrap();
    assert_eq!(request.headers.get("Host").unwrap(), "example.com:8080");
}

#[test]
fn parse_without_header_end_is_malformed() {
    assert_eq!(Request::parse("GET / HTTP/1.1\r\n"), Err(Error::MalformedRequest));
    assert_eq!(Request::parse(""), Err(Error::MalformedRequest));
    assert_eq!(Request::parse("GET / HTTP/1.1\n\n"), Err(Error::MalformedRequest));
}

#[test]
fn parse_unknown_method() {
    assert_eq!(Request::parse("XYZ / HTTP/1.1\r\n\r\n"), Err(Error::UnknownMethod));
    assert_eq!(Request::parse("get / HTTP/1.1\r\n\r\n"), Err(Error::UnknownMethod));
}

#[test]
fn parse_unsupported_version() {
    assert_eq!(Request::parse("GET / HTTP/0.9\r\n\r\n"), Err(Error::UnsupportedVersion));
}

#[test]
fn parse_request_line_needs_three_tokens() {
    assert_eq!(Request::parse("GET /\r\n\r\n"), Err(Error::MalformedRequest));
    assert_eq!(Request::parse("GET / HTTP/1.1 extra\r\n\r\n"), Err(Error::MalformedRequest));
    assert_eq!(Request::parse("\r\n\r\n"), Err(Error::MalformedRequest));
}

#[test]
fn parse_header_without_colon_is_malformed() {
    assert_eq!(
        Request::parse("GET / HTTP/1.1\r\nHost example.com\r\n\r\n"),
        Err(Error::MalformedRequest)
    );
}

#[test]
fn request_serialise_then_parse() {
    let request = Request::post("/submit")
        .header(("Host", "example.com"))
        .body_with_type("a=1&b=2\r\n\r\nrest", "application/x-www-form-urlencoded");
    let text = request.to_string();
    assert_eq!(
        text,
        "POST /submit HTTP/1.1\r\nHost: example.com\r\nContent-Length: 15\r\nContent-Type: application/x-www-form-urlencoded\r\n\r\na=1&b=2\r\n\r\nrest"
    );
    let parsed = Request::parse(&text).unwrap();
    assert_eq!(parsed, request);
}

#[test]
fn response_classes() {
    assert_eq!(Response::new(Status::SwitchingProtocols).class(), ResponseClass::Informational);
    assert_eq!(Response::new(Status::OK).class(), ResponseClass::Successful);
    assert_eq!(Response::new(Status::NotFound).class(), ResponseClass::ClientError);
    assert_eq!(Response::new(Status::UpgradeRequired).class(), ResponseClass::ClientError);
    assert_eq!(Response::new(Status::VersionNotSupported).class(), ResponseClass::ServerError);
    assert_eq!(ResponseClass::new(&Status::BadRequest), ResponseClass::ClientError);
}

#[test]
fn status_and_version_text() {
    assert_eq!(Status::OK.as_str(), "200 OK");
    assert_eq!(Status::UpgradeRequired.as_str(), "426 Upgrade Required");
    assert_eq!(Version::OneDotOne.as_str(), "HTTP/1.1");
    assert_eq!(Error::UnknownMethod.as_str(), "Unknown method");
}

#[test]
fn request_line_is_first_line() {
    assert_eq!(request_line("GET /a HTTP/1.1\r\nHost: x\r\n\r\n"), "GET /a HTTP/1.1");
    assert_eq!(request_line("no break"), "no break");
}

#[test]
fn untrimmed_values_read_back_trimmed() {
    let request = Request::get("/a\rb").header(("X", "  padded\r"));
    let parsed = Request::parse(&request.to_string()).unwrap();
    assert_eq!(parsed.uri.path, "/a\rb");
    assert_eq!(parsed.headers.get("x").unwrap(), "padded");
}
