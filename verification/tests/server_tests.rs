use sync_http::server::ServerBuilder;

#[test]
fn route_wildcard_matches_one_segment_only() {
    let b = ServerBuilder::new().get("/users/*").unwrap();
    assert_eq!(b.match_route("/users/abc-123"), Some(0));
    // the wildcard class holds no slash, so it never crosses a segment
    assert_eq!(b.match_route("/users/abc/def"), None);
}

#[test]
fn route_match_is_anchored() {
    let b = ServerBuilder::new().get("close").unwrap();
    assert_eq!(b.match_route("close"), Some(0));
    assert_eq!(b.match_route("closer"), None);
    assert_eq!(b.match_route("preclose"), None);
}

#[test]
fn route_registration_order_decides_ties() {
    let b = ServerBuilder::new()
        .get("/users/*")
        .unwrap()
        .get("/users/abc")
        .unwrap();
    assert_eq!(b.match_route("/users/abc"), Some(0));

    let b = ServerBuilder::new()
        .get("/users/abc")
        .unwrap()
        .get("/users/*")
        .unwrap();
    assert_eq!(b.match_route("/users/abc"), Some(0));
}

#[test]
fn route_duplicate_registration_keeps_both_entries() {
    let b = ServerBuilder::new()
        .get("/users/*")
        .unwrap()
        .get("/users/*")
        .unwrap();
    assert_eq!(b.route_count(), 2);
    // dispatch still honors first-registered-wins
    assert_eq!(b.match_route("/users/abc"), Some(0));
}

#[test]
fn route_leftover_metacharacters_stay_in_the_pattern() {
    // a trailing question mark makes the preceding character optional
    let b = ServerBuilder::new().get("close?").unwrap();
    assert_eq!(b.match_route("close"), Some(0));
    assert_eq!(b.match_route("clos"), Some(0));
    assert_eq!(b.match_route("closee"), None);
}

#[test]
fn route_that_cannot_compile_is_rejected() {
    let r = ServerBuilder::new().get("(");
    assert!(r.is_err());
}

#[test]
fn route_escapes_dots_literally() {
    let b = ServerBuilder::new().get("a.b").unwrap();
    assert_eq!(b.match_route("a.b"), Some(0));
    assert_eq!(b.match_route("axb"), None);
}

#[test]
fn builder_starts_unconfigured() {
    let b = ServerBuilder::new();
    assert!(b.ip_address.is_none());
    assert!(b.port.is_none());
    assert!(b.ttl.is_none());
    assert_eq!(b.route_count(), 0);
}

#[test]
fn builder_setters_chain() {
    let b = ServerBuilder::new()
        .ip_address("127.0.0.1".into())
        .port(8080)
        .ttl(64);
    assert_eq!(b.ip_address, Some("127.0.0.1".to_string()));
    assert_eq!(b.port, Some(8080));
    assert_eq!(b.ttl, Some(64));
}

#[test]
fn route_unmatched_uri_matches_nothing() {
    // When no registered route matches, dispatch finds no index; the
    // embedder's documented policy is then to write nothing and let the
    // connection close.
    let b = ServerBuilder::new().get("close").unwrap();
    assert_eq!(b.match_route("open"), None);
    let b = ServerBuilder::new();
    assert_eq!(b.match_route("anything"), None);
}
