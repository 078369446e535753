use archerdndsys::record::{parse_line, parse_method, render, Method, Op};

fn op(method: Method, endpoint: &str, payload: Option<&str>) -> Op {
    Op { method, endpoint: endpoint.to_string(), payload: payload.map(|p| p.to_string()) }
}

#[test]
fn parse_line_splits_three_fields() {
    let r = parse_line("POST /api/resource {\"key\":\"value\"}").unwrap();
    assert_eq!(r.0, "POST");
    assert_eq!(r.1, "/api/resource");
    assert_eq!(r.2.as_deref(), Some("{\"key\":\"value\"}"));
}

#[test]
fn parse_line_two_fields_no_payload() {
    let r = parse_line("DELETE /api/items/3").unwrap();
    assert_eq!(r.0, "DELETE");
    assert_eq!(r.1, "/api/items/3");
    assert!(r.2.is_none());
}

#[test]
fn parse_line_rejects_single_field() {
    assert!(parse_line("POST").is_none());
    assert!(parse_line("").is_none());
}

#[test]
fn parse_line_payload_is_verbatim() {
    let r = parse_line("PUT /x {\"a\": 1, \"b\": 2}").unwrap();
    assert_eq!(r.2.as_deref(), Some("{\"a\": 1, \"b\": 2}"));
    let r = parse_line("PUT /x  leading space kept").unwrap();
    assert_eq!(r.1, "/x");
    assert_eq!(r.2.as_deref(), Some(" leading space kept"));
}

#[test]
fn parse_method_classifies_the_four_methods() {
    assert_eq!(parse_method("GET"), Some(Method::Get));
    assert_eq!(parse_method("POST"), Some(Method::Post));
    assert_eq!(parse_method("PUT"), Some(Method::Put));
    assert_eq!(parse_method("DELETE"), Some(Method::Delete));
    assert_eq!(parse_method("PATCH"), None);
    assert_eq!(parse_method("get"), None);
    assert_eq!(parse_method(""), None);
}

#[test]
fn render_writes_the_line_back() {
    assert_eq!(render(&op(Method::Post, "/a", Some("{x}"))), "POST /a {x}");
    assert_eq!(render(&op(Method::Delete, "/a", None)), "DELETE /a");
}

#[test]
fn render_then_parse_gives_the_fields_back() {
    let line = render(&op(Method::Put, "/api/items/7", Some("{\"y\": 2}")));
    let r = parse_line(&line).unwrap();
    assert_eq!(r.0, "PUT");
    assert_eq!(r.1, "/api/items/7");
    assert_eq!(r.2.as_deref(), Some("{\"y\": 2}"));
}
