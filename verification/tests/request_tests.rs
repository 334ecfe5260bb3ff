use sync_http::errors::RequestError;
use sync_http::mime::{ContentType, MediaType, MimeSuffix, MimeType};
use sync_http::query::Query;
use sync_http::request::{has_header_terminator, sanatise_uri, Header, Method, Request};

#[test]
fn request_example_request() {
    let request = Request::parse(
        "GET / HTTP/1.1\r\n\
            Host: localhost:8080\r\n\
            User-Agent: curl/8.5.0\r\n\
            Accept: */*\r\n\r\n"
            .into(),
    );

    let accurate = Request {
        method: Method::Get,
        // the lone slash sanitizes to the empty path
        uri: "".into(),
        query: Query::default(),
        headers: vec![
            Header::Host("localhost:8080".into()),
            Header::UserAgent("curl/8.5.0".into()),
            Header::Accept(vec![ContentType(
                MediaType::All,
                MimeType::All,
                MimeSuffix::NoSuffix,
                1000,
            )]),
        ],
    };

    assert_eq!(request, Ok(accurate));
}

#[test]
fn tests_example_request() {
    let request = Request::parse(
        "GET / HTTP/1.1\r\n\
            Host: localhost:8080\r\n\
            User-Agent: curl/8.5.0\r\n\
            Accept: */*\r\n\r\n"
            .into(),
    );

    let accurate = Request {
        method: Method::Get,
        uri: "".into(),
        query: Query::default(),
        headers: vec![
            Header::Host("localhost:8080".into()),
            Header::UserAgent("curl/8.5.0".into()),
            Header::Accept(vec![ContentType(
                MediaType::All,
                MimeType::All,
                MimeSuffix::NoSuffix,
                1000,
            )]),
        ],
    };

    assert_eq!(request, Ok(accurate));
}

#[test]
fn request_header_parsing() {
    const NUM_TESTS: usize = 5;
    let headers: [&str; NUM_TESTS] = [
        "Host: localhost:8080",
        "user-AGENT: curl/8.5.0",
        "AcCePt: text/html",
        "Pragma: no-cache",
        "",
    ];
    let test_vals: [Option<Header>; NUM_TESTS] = [
        Some(Header::Host("localhost:8080".into())),
        Some(Header::UserAgent("curl/8.5.0".into())),
        Some(Header::Accept(vec![ContentType(
            MediaType::Text,
            MimeType::HTML,
            MimeSuffix::NoSuffix,
            1000,
        )])),
        None,
        None,
    ];

    // Will fail to compile if more headers are added
    match test_vals[0].clone().unwrap() {
        Header::Host(_) | Header::UserAgent(_) | Header::Accept(_) => {}
    }

    for i in 0..NUM_TESTS {
        let parsed = Header::parse(headers[i]);
        assert_eq!(parsed, test_vals[i].clone());
    }
}

#[test]
fn tests_header_parsing() {
    const NUM_TESTS: usize = 5;
    let headers: [&str; NUM_TESTS] = [
        "Host: localhost:8080",
        "user-AGENT: curl/8.5.0",
        "AcCePt: text/html",
        "Pragma: no-cache",
        "",
    ];
    let test_vals: [Option<Header>; NUM_TESTS] = [
        Some(Header::Host("localhost:8080".into())),
        Some(Header::UserAgent("curl/8.5.0".into())),
        Some(Header::Accept(vec![ContentType(
            MediaType::Text,
            MimeType::HTML,
            MimeSuffix::NoSuffix,
            1000,
        )])),
        None,
        None,
    ];

    for i in 0..NUM_TESTS {
        let parsed = Header::parse(headers[i]);
        assert_eq!(parsed, test_vals[i].clone());
    }
}

#[test]
fn request_method_parsing() {
    const NUM_TESTS: usize = 4;
    let methods: [_; NUM_TESTS] = ["GET", "POST", "get", "post"];
    let test_vals: [Result<Method, RequestError>; NUM_TESTS] = [
        Ok(Method::Get),
        Ok(Method::Post),
        Err(RequestError::BadMethod),
        Err(RequestError::BadMethod),
    ];

    // Will fail to compile if more methods are added
    match Method::Get {
        Method::Get | Method::Post => {}
    }

    for i in 0..NUM_TESTS {
        let parsed = Method::parse(methods[i]);
        assert_eq!(parsed, test_vals[i]);
    }
}

#[test]
fn tests_method_parsing() {
    const NUM_TESTS: usize = 4;
    let methods: [_; NUM_TESTS] = ["GET", "POST", "get", "post"];
    let test_vals: [Result<Method, RequestError>; NUM_TESTS] = [
        Ok(Method::Get),
        Ok(Method::Post),
        Err(RequestError::BadMethod),
        Err(RequestError::BadMethod),
    ];

    for i in 0..NUM_TESTS {
        let parsed = Method::parse(methods[i]);
        assert_eq!(parsed, test_vals[i]);
    }
}

#[test]
fn request_old_protocol_is_rejected() {
    let r = Request::parse("GET / HTTP/1.0\r\n\r\n".into());
    assert_eq!(r.unwrap_err(), RequestError::BadProtocol);
}

#[test]
fn request_lowercase_method_is_rejected() {
    let r = Request::parse("get / HTTP/1.1\r\n\r\n".into());
    assert_eq!(r.unwrap_err(), RequestError::BadMethod);
}

#[test]
fn request_two_tokens_are_rejected() {
    let r = Request::parse("GET /\r\n\r\n".into());
    assert_eq!(r.unwrap_err(), RequestError::TooManyValues);
}

#[test]
fn request_protocol_compares_case_insensitively() {
    let r = Request::parse("GET / http/1.1\r\n\r\n".into());
    assert!(r.is_ok());
    assert_eq!(r.unwrap().method, Method::Get);
}

#[test]
fn request_target_query_reaches_the_query_parser() {
    let r = Request::parse("GET /search?a=1+b=2 HTTP/1.1\r\n\r\n".into()).unwrap();
    assert_eq!(r.uri, "search");
    assert_eq!(r.query.queries.len(), 2);
    assert_eq!(r.query.queries[0].key, "a");
    assert_eq!(r.query.queries[0].value, "1");
    assert_eq!(r.query.queries[1].key, "b");
    assert_eq!(r.query.queries[1].value, "2");
}

#[test]
fn request_body_after_terminator_is_discarded() {
    let r = Request::parse("GET / HTTP/1.1\r\nHost: h\r\n\r\nAccept: */*".into()).unwrap();
    assert_eq!(r.headers, vec![Header::Host("h".into())]);
}

#[test]
fn request_malformed_accept_header_is_skipped() {
    let r = Request::parse("GET / HTTP/1.1\r\nAccept: garbage\r\nHost: h\r\n\r\n".into()).unwrap();
    assert_eq!(r.headers, vec![Header::Host("h".into())]);
}

#[test]
fn sanitize_collapses_dots_and_slashes() {
    assert_eq!(sanatise_uri("./a//b/."), "a/b");
}

#[test]
fn sanitize_is_idempotent_on_its_output() {
    let once = sanatise_uri("./a//b/.");
    let twice = sanatise_uri(once.as_str());
    assert_eq!(once, twice);
    assert_eq!(sanatise_uri("a/b"), "a/b");
}

#[test]
fn sanitize_of_a_lone_slash_is_empty() {
    assert_eq!(sanatise_uri("/"), "");
    assert_eq!(sanatise_uri(""), "");
}

#[test]
fn terminator_is_found_anywhere_in_the_buffer() {
    assert!(has_header_terminator("GET / HTTP/1.1\r\n\r\n"));
    assert!(has_header_terminator("a\r\n\r\nbody"));
    assert!(!has_header_terminator("GET / HTTP/1.1\r\n\r"));
    assert!(!has_header_terminator(""));
}
