use web_server::server::{Dispatch, ReadBudget, Server, READ_INIT_TIMEOUT_MS, READ_TIMEOUT_MS};

fn answer(d: Dispatch<'_, u32>) -> String {
    match d {
        Dispatch::Respond(res) => res.produce(),
        Dispatch::Handle(_, _) => panic!("expected a response"),
    }
}

#[test]
fn unregistered_path_is_not_found() {
    let mut s: Server<u32> = Server::new();
    s.router.add("/a", 1);
    let out = answer(s.dispatch(b"GET /b HTTP/1.1\n\n"));
    assert_eq!(out, "HTTP/1.1 404 Not Found\nContent-Length: 20\n\nDid not find path /b");
}

#[test]
fn registered_path_is_handled() {
    let mut s: Server<u32> = Server::new();
    s.router.add("/a", 1);
    match s.dispatch(b"GET /a HTTP/1.1\nX: y\n\n") {
        Dispatch::Handle(h, req) => {
            assert_eq!(*h, 1);
            assert_eq!(req.uri(), "/a");
            assert_eq!(req.header("x"), "y");
        }
        Dispatch::Respond(_) => panic!("expected the handler"),
    }
}

#[test]
fn malformed_request_is_bad() {
    let s: Server<u32> = Server::new();
    let out = answer(s.dispatch(b"POST /a HTTP/1.1\n\n"));
    assert_eq!(out, "HTTP/1.1 400 Bad Request\nContent-Length: 18\n\nMalformed request.");
}

#[test]
fn invalid_utf8_is_replaced() {
    let s: Server<u32> = Server::new();
    let out = answer(s.dispatch(b"GET /\xff HTTP/1.1\n\n"));
    assert_eq!(out, "HTTP/1.1 404 Not Found\nContent-Length: 22\n\nDid not find path /\u{FFFD}");
}

#[test]
fn oversize_request_is_refused() {
    let mut b = ReadBudget::new();
    assert_eq!(b.read_timeout_ms(), READ_INIT_TIMEOUT_MS);
    let chunk = vec![b'a'; 4096];
    for _ in 0..8 {
        assert!(b.feed(&chunk));
    }
    assert_eq!(b.read_timeout_ms(), READ_TIMEOUT_MS);
    assert_eq!(b.allowance(), 0);
    assert!(!b.feed(b"x"));
    assert_eq!(b.data().len(), 32768);
    let out = Server::<u32>::too_large().produce();
    assert_eq!(out, "HTTP/1.1 400 Bad Request\nContent-Length: 24\n\nRequest input too large.");
}

#[test]
fn allowance_shrinks_near_ceiling() {
    let mut b = ReadBudget::new();
    assert_eq!(b.allowance(), 4096);
    let chunk = vec![b'a'; 4000];
    for _ in 0..8 {
        assert!(b.feed(&chunk));
    }
    assert_eq!(b.allowance(), 768);
    assert!(!b.feed(&vec![b'a'; 769]));
    assert!(b.feed(&vec![b'a'; 768]));
    assert_eq!(b.allowance(), 0);
}

#[test]
fn bad_request_carries_message() {
    let out = Server::<u32>::bad_request("nope").produce();
    assert_eq!(out, "HTTP/1.1 400 Bad Request\nContent-Length: 4\n\nnope");
}
