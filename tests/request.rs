use web_server::request::{lines, Request};

#[test]
fn parses_get_with_header() {
    let req = Request::new("GET /x HTTP/1.1\nHost: a\n\n").unwrap();
    assert_eq!(req.uri(), "/x");
    assert_eq!(req.header("host"), "a");
    assert_eq!(req.get("HOST"), Some("a"));
    assert_eq!(req.get("other"), None);
    assert_eq!(req.header("other"), "");
}

#[test]
fn rejects_other_methods() {
    assert!(Request::new("POST /x HTTP/1.1\n\n").is_err());
}

#[test]
fn rejects_bad_request_lines() {
    assert!(Request::new("").is_err());
    assert!(Request::new("GET /x\n\n").is_err());
    assert!(Request::new("GET  HTTP/1.1\n\n").is_err());
    assert!(Request::new("GET /x HTTP/1.0\n\n").is_err());
    assert!(Request::new("GET /x HTTP/1.1 extra\n\n").is_err());
}

#[test]
fn header_keys_fold_and_later_wins() {
    let req = Request::new("GET / HTTP/1.1\r\n  X-Thing : one \r\nx-thing: two\r\n\r\nbody").unwrap();
    assert_eq!(req.uri(), "/");
    assert_eq!(req.header("X-THING"), "two");
}

#[test]
fn header_without_colon_fails() {
    assert!(Request::new("GET / HTTP/1.1\nbroken\n\n").is_err());
}

#[test]
fn headers_may_end_without_blank_line() {
    let req = Request::new("GET /y HTTP/1.1\nA: 1").unwrap();
    assert_eq!(req.header("a"), "1");
}

#[test]
fn lines_after_blank_are_ignored() {
    let req = Request::new("GET /y HTTP/1.1\nA: 1\n\nno colon here").unwrap();
    assert_eq!(req.header("a"), "1");
}

#[test]
fn splits_lines() {
    assert_eq!(lines("a\r\nb\n\nc\n"), vec!["a".to_string(), "b".to_string(), String::new(), "c".to_string()]);
    assert_eq!(lines(""), Vec::<String>::new());
    assert_eq!(lines("x\r"), vec!["x\r".to_string()]);
}

#[test]
fn get_request_for_any_plain_uri_parses_back() {
    for uri in ["/a?b=c", "x", "/\u{e9}t\u{e9}", "/a/*/b"] {
        let text = format!("GET {} HTTP/1.1\n\n", uri);
        let req = Request::new(&text).unwrap();
        assert_eq!(req.uri(), uri);
        assert_eq!(req.get("host"), None);
    }
}
