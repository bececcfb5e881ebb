//! Building a response and writing it out in wire form.
use vstd::prelude::*;

use crate::text::{decimal, entry_views, lower_of, lowercase, push_decimal, trim_of, trim_str};

verus! {

/// The status codes a response can carry.
pub enum HttpStatus {
    Okay,
    BadRequest,
    Forbidden,
    NotFound,
    InternalServerError,
}

/// The status line of each status.
pub open spec fn status_line(s: HttpStatus) -> Seq<char> {
    match s {
        HttpStatus::Okay => "HTTP/1.1 200 OK"@,
        HttpStatus::BadRequest => "HTTP/1.1 400 Bad Request"@,
        HttpStatus::Forbidden => "HTTP/1.1 403 Forbidden"@,
        HttpStatus::NotFound => "HTTP/1.1 404 Not Found"@,
        HttpStatus::InternalServerError => "HTTP/1.1 500 Internal Server Error"@,
    }
}

impl HttpStatus {
    pub fn as_str(&self) -> (r: &'static str)
        ensures
            r@ == status_line(*self),
    {
        match self {
            HttpStatus::Okay => "HTTP/1.1 200 OK",
            HttpStatus::BadRequest => "HTTP/1.1 400 Bad Request",
            HttpStatus::Forbidden => "HTTP/1.1 403 Forbidden",
            HttpStatus::NotFound => "HTTP/1.1 404 Not Found",
            HttpStatus::InternalServerError => "HTTP/1.1 500 Internal Server Error",
        }
    }
}

/// The header key that the writer computes itself.
pub open spec fn length_key() -> Seq<char> {
    "content-length"@
}

/// Whether a key given to `header` names the computed length header.
pub open spec fn is_reserved(key: Seq<char>) -> bool {
    lower_of(trim_of(key)) == length_key()
}

/// Sets `k` to `v` in an entry list with unique keys: the entry with key `k`
/// is replaced in place, or a new one is added at the end.
pub open spec fn put(es: Seq<(Seq<char>, Seq<char>)>, k: Seq<char>, v: Seq<char>) -> Seq<
    (Seq<char>, Seq<char>),
> {
    if exists|j: int| 0 <= j < es.len() && es[j].0 == k {
        es.update(choose|j: int| 0 <= j < es.len() && es[j].0 == k, (k, v))
    } else {
        es.push((k, v))
    }
}

/// The header lines `Key: Value\n` of the entries, in order.
pub open spec fn header_lines(es: Seq<(Seq<char>, Seq<char>)>) -> Seq<char>
    decreases es.len(),
{
    if es.len() == 0 {
        Seq::empty()
    } else {
        header_lines(es.drop_last()) + es.last().0 + ": "@ + es.last().1 + "\n"@
    }
}

/// The wire form of a response: status line, the length header with the
/// body's UTF-8 byte count, the other headers, a blank line, the body.
pub open spec fn wire(status: HttpStatus, es: Seq<(Seq<char>, Seq<char>)>, body: Seq<char>) -> Seq<
    char,
> {
    status_line(status) + "\n"@ + "Content-Length: "@ + decimal(
        vstd::utf8::encode_utf8(body).len(),
    ) + "\n"@ + header_lines(es) + "\n"@ + body
}

pub struct HttpResponse {
    status: HttpStatus,
    body: String,
    headers: Vec<(String, String)>,
}

impl HttpResponse {
    pub closed spec fn spec_status(&self) -> HttpStatus {
        self.status
    }

    pub closed spec fn spec_body(&self) -> Seq<char> {
        self.body@
    }

    pub closed spec fn spec_headers(&self) -> Seq<(Seq<char>, Seq<char>)> {
        entry_views(self.headers@)
    }

    /// Header keys are unique and none names the length header.
    pub open spec fn wf(&self) -> bool {
        &&& forall|i: int, j: int|
            0 <= i < j < self.spec_headers().len() ==> #[trigger] self.spec_headers()[i].0
                != #[trigger] self.spec_headers()[j].0
        &&& forall|i: int|
            0 <= i < self.spec_headers().len() ==> lower_of(#[trigger] self.spec_headers()[i].0)
                != length_key()
    }

    /// An empty response with the given status.
    pub fn new(status: HttpStatus) -> (r: HttpResponse)
        ensures
            r.wf(),
            r.spec_status() == status,
            r.spec_body() == Seq::<char>::empty(),
            r.spec_headers() == Seq::<(Seq<char>, Seq<char>)>::empty(),
    {
        let r = HttpResponse { status, body: String::new(), headers: Vec::new() };
        assert(r.spec_headers() =~= Seq::<(Seq<char>, Seq<char>)>::empty());
        r
    }

    /// Sets header `key` (trimmed) to `value`, replacing an earlier value for
    /// the same key. A key that names the length header, in any case, is
    /// ignored.
    pub fn header(&mut self, key: &str, value: &str)
        requires
            old(self).wf(),
        ensures
            final(self).wf(),
            final(self).spec_status() == old(self).spec_status(),
            final(self).spec_body() == old(self).spec_body(),
            final(self).spec_headers() == if is_reserved(key@) {
                old(self).spec_headers()
            } else {
                put(old(self).spec_headers(), trim_of(key@), value@)
            },
    {
        let k = trim_str(key);
        let folded = lowercase(k);
        let reserved = String::from_str("content-length");
        if folded == reserved {
            return;
        }
        let key_s = String::from_str(k);
        let value_s = String::from_str(value);
        let ghost es = self.spec_headers();
        let n = self.headers.len();
        let mut i: usize = 0;
        while i < n
            invariant
                n == self.headers@.len(),
                es == self.spec_headers(),
                es == old(self).spec_headers(),
                self.wf(),
                i <= n,
                key_s@ == trim_of(key@),
                value_s@ == value@,
                !is_reserved(key@),
                self.spec_status() == old(self).spec_status(),
                self.spec_body() == old(self).spec_body(),
                forall|j: int| 0 <= j < i ==> es[j].0 != key_s@,
            decreases n - i,
        {
            assert(es[i as int].0 == self.headers@[i as int].0@);
            if self.headers[i].0 == key_s {
                proof {
                    assert(es[i as int].0 == trim_of(key@));
                    let c = choose|j: int| 0 <= j < es.len() && es[j].0 == trim_of(key@);
                    if c != i {
                        if c < i {
                            assert(es[c].0 != es[i as int].0);
                        } else {
                            assert(es[i as int].0 != es[c].0);
                        }
                    }
                }
                self.headers.set(i, (key_s, value_s));
                proof {
                    assert(self.spec_headers() =~= put(es, trim_of(key@), value@));
                    assert forall|a: int, b: int|
                        0 <= a < b < self.spec_headers().len() implies #[trigger] self.spec_headers()[a].0
                        != #[trigger] self.spec_headers()[b].0 by {
                        assert(es[a].0 != es[b].0);
                    }
                    assert forall|a: int| 0 <= a < self.spec_headers().len() implies lower_of(
                        #[trigger] self.spec_headers()[a].0,
                    ) != length_key() by {
                        assert(lower_of(es[a].0) != length_key());
                    }
                }
                return;
            }
            i = i + 1;
        }
        self.headers.push((key_s, value_s));
        proof {
            assert(self.spec_headers() =~= es.push((trim_of(key@), value@)));
            assert forall|a: int, b: int|
                0 <= a < b < self.spec_headers().len() implies #[trigger] self.spec_headers()[a].0
                != #[trigger] self.spec_headers()[b].0 by {
                if b < es.len() {
                    assert(es[a].0 != es[b].0);
                } else {
                    assert(es[a].0 != key_s@);
                }
            }
            assert forall|a: int| 0 <= a < self.spec_headers().len() implies lower_of(
                #[trigger] self.spec_headers()[a].0,
            ) != length_key() by {
                if a < es.len() {
                    assert(lower_of(es[a].0) != length_key());
                }
            }
        }
    }

    /// Appends `text` to the body.
    pub fn append(&mut self, text: &str)
        requires
            old(self).wf(),
        ensures
            final(self).wf(),
            final(self).spec_status() == old(self).spec_status(),
            final(self).spec_headers() == old(self).spec_headers(),
            final(self).spec_body() == old(self).spec_body() + text@,
    {
        self.body.append(text);
        assert(self.spec_headers() == old(self).spec_headers());
    }

    /// Appends `text` and a newline to the body.
    pub fn ln(&mut self, text: &str)
        requires
            old(self).wf(),
        ensures
            final(self).wf(),
            final(self).spec_status() == old(self).spec_status(),
            final(self).spec_headers() == old(self).spec_headers(),
            final(self).spec_body() == old(self).spec_body() + text@ + "\n"@,
    {
        self.body.append(text);
        self.body.append("\n");
        assert(self.spec_headers() == old(self).spec_headers());
    }

    /// The response in wire form.
    pub fn produce(self) -> (r: String)
        requires
            self.wf(),
            vstd::utf8::encode_utf8(self.spec_body()).len() <= usize::MAX,
        ensures
            r@ == wire(self.spec_status(), self.spec_headers(), self.spec_body()),
    {
        let mut res = String::from_str(self.status.as_str());
        res.append("\n");
        res.append("Content-Length: ");
        push_decimal(&mut res, self.body.as_str().len());
        res.append("\n");
        let ghost start = res@;
        let ghost es = self.spec_headers();
        let mut i: usize = 0;
        assert(es.subrange(0, 0) =~= Seq::<(Seq<char>, Seq<char>)>::empty());
        while i < self.headers.len()
            invariant
                es == entry_views(self.headers@),
                i <= self.headers@.len(),
                res@ == start + header_lines(es.subrange(0, i as int)),
            decreases self.headers@.len() - i,
        {
            let e = &self.headers[i];
            res.append(e.0.as_str());
            res.append(": ");
            res.append(e.1.as_str());
            res.append("\n");
            assert(es.subrange(0, i as int + 1).drop_last() =~= es.subrange(0, i as int));
            assert(res@ =~= start + header_lines(es.subrange(0, i as int + 1)));
            i = i + 1;
        }
        assert(es.subrange(0, i as int) =~= es);
        res.append("\n");
        res.append(self.body.as_str());
        assert(res@ =~= wire(self.spec_status(), self.spec_headers(), self.spec_body()));
        res
    }
}

} // verus!
