//! The per-connection pipeline: how much input is accepted and with what
//! timeout, and what is answered to the bytes received.
use vstd::prelude::*;

use crate::request::{get_request_text, lemma_get_request_round_trip, parse_request, Request};
use crate::response::{HttpResponse, HttpStatus};
use crate::route::Route;
use crate::text::{decode_lossy, lossy_of};

verus! {

/// Wait for the first bytes of a request, in milliseconds.
pub const READ_INIT_TIMEOUT_MS: u64 = 10000;

/// Wait for further bytes once some have come, in milliseconds; a gap this
/// long ends the request.
pub const READ_TIMEOUT_MS: u64 = 10;

/// The most bytes a request may have.
pub const READ_MAX_SIZE: usize = 32768;

/// The size of one read.
pub const READ_CHUNK: usize = 4096;

/// How many bytes the next read may bring after `received` bytes.
pub open spec fn allowance(received: nat) -> nat {
    if READ_MAX_SIZE - received < READ_CHUNK {
        (READ_MAX_SIZE - received) as nat
    } else {
        READ_CHUNK as nat
    }
}

/// Chunks of at most one read each are refused exactly when they would take
/// the request past the size ceiling: a request within the ceiling is never
/// refused as too large.
pub proof fn lemma_allowance_is_ceiling(received: nat, len: nat)
    requires
        received <= READ_MAX_SIZE,
        len <= READ_CHUNK,
    ensures
        len <= allowance(received) <==> received + len <= READ_MAX_SIZE,
{
}

/// The text of received bytes: their UTF-8 decoding when they are valid,
/// else the lossy decoding.
pub open spec fn decoded_text(raw: Seq<u8>) -> Seq<char> {
    if vstd::utf8::valid_utf8(raw) {
        vstd::utf8::decode_utf8(raw)
    } else {
        lossy_of(raw)
    }
}

/// The bytes of a GET request for a non-empty URI without spaces or line
/// breaks decode and parse back to that URI with no header; by the contract
/// of `dispatch`, a URI that routes to no handler gets a 404 naming it.
pub proof fn lemma_get_bytes_parse(uri: Seq<char>)
    requires
        uri.len() > 0,
        forall|i: int| 0 <= i < uri.len() ==> #[trigger] uri[i] != ' ' && uri[i] != '\n',
    ensures
        decoded_text(vstd::utf8::encode_utf8(get_request_text(uri))) == get_request_text(uri),
        parse_request(decoded_text(vstd::utf8::encode_utf8(get_request_text(uri)))) == Some(
            (uri, Seq::<(Seq<char>, Seq<char>)>::empty()),
        ),
{
    vstd::utf8::encode_utf8_valid_utf8(get_request_text(uri));
    vstd::utf8::encode_utf8_decode_utf8(get_request_text(uri));
    lemma_get_request_round_trip(uri);
}

/// The bytes of a request read so far.
pub struct ReadBudget {
    data: Vec<u8>,
    started: bool,
}

impl ReadBudget {
    pub closed spec fn spec_data(&self) -> Seq<u8> {
        self.data@
    }

    pub closed spec fn spec_started(&self) -> bool {
        self.started
    }

    pub open spec fn wf(&self) -> bool {
        &&& self.spec_data().len() <= READ_MAX_SIZE
        &&& (self.spec_data().len() > 0 ==> self.spec_started())
    }

    pub fn new() -> (r: ReadBudget)
        ensures
            r.wf(),
            r.spec_data() == Seq::<u8>::empty(),
            !r.spec_started(),
    {
        ReadBudget { data: Vec::new(), started: false }
    }

    /// The read timeout to use next: long until bytes have come, short after.
    pub fn read_timeout_ms(&self) -> (r: u64)
        ensures
            r == if self.spec_started() {
                READ_TIMEOUT_MS
            } else {
                READ_INIT_TIMEOUT_MS
            },
    {
        if self.started {
            READ_TIMEOUT_MS
        } else {
            READ_INIT_TIMEOUT_MS
        }
    }

    /// How many bytes the next read may bring.
    pub fn allowance(&self) -> (r: usize)
        requires
            self.wf(),
        ensures
            r == allowance(self.spec_data().len()),
    {
        let left = READ_MAX_SIZE - self.data.len();
        if left < READ_CHUNK {
            left
        } else {
            READ_CHUNK
        }
    }

    /// Takes one non-empty read. It is refused, and nothing kept, when it
    /// brings more than the allowance; the request is then too large.
    pub fn feed(&mut self, chunk: &[u8]) -> (r: bool)
        requires
            old(self).wf(),
        ensures
            final(self).wf(),
            r == (chunk@.len() <= allowance(old(self).spec_data().len())),
            r ==> final(self).spec_data() == old(self).spec_data() + chunk@,
            r ==> final(self).spec_started() == (old(self).spec_started() || chunk@.len() > 0),
            !r ==> final(self).spec_data() == old(self).spec_data() && final(self).spec_started()
                == old(self).spec_started(),
    {
        if chunk.len() > self.allowance() {
            return false;
        }
        let ghost d0 = self.data@;
        let mut i: usize = 0;
        while i < chunk.len()
            invariant
                i <= chunk@.len(),
                d0.len() + chunk@.len() <= READ_MAX_SIZE,
                d0 == old(self).spec_data(),
                self.started == old(self).spec_started(),
                self.data@ == d0 + chunk@.subrange(0, i as int),
            decreases chunk@.len() - i,
        {
            self.data.push(chunk[i]);
            i = i + 1;
            assert(self.data@ =~= d0 + chunk@.subrange(0, i as int));
        }
        assert(chunk@.subrange(0, i as int) =~= chunk@);
        if chunk.len() > 0 {
            self.started = true;
        }
        true
    }

    /// The bytes received.
    pub fn data(&self) -> (r: &[u8])
        ensures
            r@ == self.spec_data(),
    {
        self.data.as_slice()
    }
}

/// What to do with a request: answer with a response made here, or call the
/// handler found for the parsed request.
pub enum Dispatch<'a, H> {
    Respond(HttpResponse),
    Handle(&'a H, Request),
}

/// A response with status `status` and body `body`, and no other header.
pub open spec fn is_plain(r: HttpResponse, status: HttpStatus, body: Seq<char>) -> bool {
    &&& r.wf()
    &&& r.spec_status() == status
    &&& r.spec_headers() == Seq::<(Seq<char>, Seq<char>)>::empty()
    &&& r.spec_body() == body
}

pub struct Server<H> {
    pub router: Route<H>,
}

impl<H> Server<H> {
    /// A server with an empty routing table.
    pub fn new() -> (r: Server<H>)
        ensures
            r.router.wf(),
            forall|path: Seq<char>| #[trigger] r.router.spec_route(path) is None,
    {
        Server { router: Route::new() }
    }

    /// A 400 response whose body is `message`.
    pub fn bad_request(message: &str) -> (r: HttpResponse)
        ensures
            is_plain(r, HttpStatus::BadRequest, message@),
    {
        let mut res = HttpResponse::new(HttpStatus::BadRequest);
        res.append(message);
        res
    }

    /// The answer to a request that grew past the size ceiling.
    pub fn too_large() -> (r: HttpResponse)
        ensures
            is_plain(r, HttpStatus::BadRequest, "Request input too large."@),
    {
        Self::bad_request("Request input too large.")
    }

    /// Decides what to answer to the bytes of one request: they are decoded
    /// (invalid UTF-8 replaced) and parsed; a malformed request gets a 400, a
    /// path with no handler a 404 that names it, and otherwise the handler
    /// that the router finds is to be called with the parsed request.
    pub fn dispatch(&self, raw: &[u8]) -> (r: Dispatch<'_, H>)
        requires
            self.router.wf(),
        ensures
            match parse_request(decoded_text(raw@)) {
                None => r matches Dispatch::Respond(res) && is_plain(
                    res,
                    HttpStatus::BadRequest,
                    "Malformed request."@,
                ),
                Some((uri, hs)) => match self.router.spec_route(uri) {
                    None => r matches Dispatch::Respond(res) && is_plain(
                        res,
                        HttpStatus::NotFound,
                        "Did not find path "@ + uri,
                    ),
                    Some(h) => r matches Dispatch::Handle(f, req) && *f == h && req.spec_uri()
                        == uri && req.spec_headers() == hs,
                },
            },
    {
        let text = decode_lossy(raw);
        match Request::new(text.as_str()) {
            Ok(req) => match self.router.route(req.uri()) {
                Some(h) => Dispatch::Handle(h, req),
                None => {
                    let mut res = HttpResponse::new(HttpStatus::NotFound);
                    res.append("Did not find path ");
                    res.append(req.uri());
                    assert(res.spec_body() =~= "Did not find path "@ + req.spec_uri());
                    Dispatch::Respond(res)
                },
            },
            Err(_) => Dispatch::Respond(Self::bad_request("Malformed request.")),
        }
    }
}

} // verus!
