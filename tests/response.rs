use web_server::response::{HttpResponse, HttpStatus};

#[test]
fn length_header_is_computed() {
    let mut res = HttpResponse::new(HttpStatus::Okay);
    res.header("Content-Length", "999");
    res.append("hi");
    let out = res.produce();
    assert_eq!(out, "HTTP/1.1 200 OK\nContent-Length: 2\n\nhi");
    assert!(!out.contains("Content-Length: 999"));
}

#[test]
fn reserved_key_in_any_case_is_dropped() {
    let mut res = HttpResponse::new(HttpStatus::NotFound);
    res.header("  content-LENGTH ", "5");
    let out = res.produce();
    assert_eq!(out, "HTTP/1.1 404 Not Found\nContent-Length: 0\n\n");
}

#[test]
fn header_is_trimmed_and_replaced() {
    let mut res = HttpResponse::new(HttpStatus::Okay);
    res.header(" Content-Type ", "text/plain");
    res.header("Content-Type", "text/html");
    res.ln("<p>x</p>");
    let out = res.produce();
    assert_eq!(out, "HTTP/1.1 200 OK\nContent-Length: 9\nContent-Type: text/html\n\n<p>x</p>\n");
}

#[test]
fn length_counts_bytes() {
    let mut res = HttpResponse::new(HttpStatus::Okay);
    res.append("é");
    assert_eq!(res.produce(), "HTTP/1.1 200 OK\nContent-Length: 2\n\né");
}

#[test]
fn status_lines() {
    assert_eq!(HttpStatus::Okay.as_str(), "HTTP/1.1 200 OK");
    assert_eq!(HttpStatus::BadRequest.as_str(), "HTTP/1.1 400 Bad Request");
    assert_eq!(HttpStatus::Forbidden.as_str(), "HTTP/1.1 403 Forbidden");
    assert_eq!(HttpStatus::NotFound.as_str(), "HTTP/1.1 404 Not Found");
    assert_eq!(HttpStatus::InternalServerError.as_str(), "HTTP/1.1 500 Internal Server Error");
}

#[test]
fn large_body_length() {
    let mut res = HttpResponse::new(HttpStatus::Okay);
    let chunk = "x".repeat(1234);
    res.append(&chunk);
    let out = res.produce();
    assert!(out.starts_with("HTTP/1.1 200 OK\nContent-Length: 1234\n\n"));
}
