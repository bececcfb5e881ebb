//! Parsing of a GET request: the request line and the header block.
use vstd::prelude::*;

use crate::text::{
    chars_of, entry_views, lower_of, lowercase, split_on, split_str, trim_of, trim_str,
};

verus! {

/// `p` without one trailing carriage return.
pub open spec fn strip_cr(p: Seq<char>) -> Seq<char> {
    if p.len() > 0 && p.last() == '\r' {
        p.drop_last()
    } else {
        p
    }
}

/// The lines of `s`: split at `\n`, a `\r` before a `\n` dropped, and no
/// empty line after a final `\n` (nor for an empty input).
pub open spec fn lines_of(s: Seq<char>) -> Seq<Seq<char>> {
    let ps = split_on(s, '\n');
    let body = ps.drop_last().map_values(|p: Seq<char>| strip_cr(p));
    if ps.last().len() == 0 {
        body
    } else {
        body.push(ps.last())
    }
}

/// The URI of a request line of the exact shape `GET <uri> HTTP/1.1` with a
/// non-empty URI.
pub open spec fn request_line_uri(line: Seq<char>) -> Option<Seq<char>> {
    let f = split_on(line, ' ');
    if f.len() == 3 && f[0] == seq!['G', 'E', 'T'] && f[2] == seq![
        'H',
        'T',
        'T',
        'P',
        '/',
        '1',
        '.',
        '1',
    ] && f[1].len() > 0 {
        Some(f[1])
    } else {
        None
    }
}

/// `k` is the position of the first `:` in `s`.
pub open spec fn first_colon_at(s: Seq<char>, k: int) -> bool {
    &&& 0 <= k < s.len()
    &&& s[k] == ':'
    &&& forall|j: int| 0 <= j < k ==> s[j] != ':'
}

/// The header entry of a line with a colon: the key trimmed and case-folded,
/// the value trimmed.
pub open spec fn header_entry(line: Seq<char>) -> (Seq<char>, Seq<char>) {
    let k = choose|k: int| first_colon_at(line, k);
    (lower_of(trim_of(line.subrange(0, k))), trim_of(line.subrange(k + 1, line.len() as int)))
}

/// The header entries from line `i` on, after those in `acc`: reading stops
/// at a blank line or at the end; a non-blank line without a colon fails.
pub open spec fn header_entries(ls: Seq<Seq<char>>, i: int, acc: Seq<(Seq<char>, Seq<char>)>) -> Option<
    Seq<(Seq<char>, Seq<char>)>,
>
    decreases ls.len() - i,
{
    if i < 0 || i >= ls.len() || ls[i].len() == 0 {
        Some(acc)
    } else if exists|k: int| first_colon_at(ls[i], k) {
        header_entries(ls, i + 1, acc.push(header_entry(ls[i])))
    } else {
        None
    }
}

/// The value of the last entry with key `key` (a later header overwrites an
/// earlier one).
pub open spec fn header_value(entries: Seq<(Seq<char>, Seq<char>)>, key: Seq<char>) -> Option<
    Seq<char>,
>
    decreases entries.len(),
{
    if entries.len() == 0 {
        None
    } else if entries.last().0 == key {
        Some(entries.last().1)
    } else {
        header_value(entries.drop_last(), key)
    }
}

/// The URI and the header entries of a raw request, or `None` when it is
/// malformed.
pub open spec fn parse_request(raw: Seq<char>) -> Option<(Seq<char>, Seq<(Seq<char>, Seq<char>)>)> {
    let ls = lines_of(raw);
    if ls.len() == 0 {
        None
    } else {
        match request_line_uri(ls[0]) {
            None => None,
            Some(uri) => match header_entries(ls, 1, Seq::empty()) {
                None => None,
                Some(hs) => Some((uri, hs)),
            },
        }
    }
}

/// The character sequences of a list of strings.
pub open spec fn views(v: Seq<String>) -> Seq<Seq<char>> {
    v.map_values(|p: String| p@)
}

/// The text of a GET request for `uri` with no header.
pub open spec fn get_request_text(uri: Seq<char>) -> Seq<char> {
    seq!['G', 'E', 'T', ' '] + uri + seq![' ', 'H', 'T', 'T', 'P', '/', '1', '.', '1', '\n', '\n']
}

/// A GET request for a non-empty URI without spaces or line breaks parses
/// back to that URI, with no header.
pub proof fn lemma_get_request_round_trip(uri: Seq<char>)
    requires
        uri.len() > 0,
        forall|i: int| 0 <= i < uri.len() ==> #[trigger] uri[i] != ' ' && uri[i] != '\n',
    ensures
        parse_request(get_request_text(uri)) == Some((uri, Seq::<(Seq<char>, Seq<char>)>::empty())),
{
    let get = seq!['G', 'E', 'T'];
    let ver = seq!['H', 'T', 'T', 'P', '/', '1', '.', '1'];
    let e = Seq::<char>::empty();
    let line = get + seq![' '] + uri + seq![' '] + ver;
    let text = get_request_text(uri);
    assert(text =~= line + seq!['\n'] + (e + seq!['\n'] + e));
    assert forall|i: int| 0 <= i < line.len() implies #[trigger] line[i] != '\n' by {
        if 4 <= i < 4 + uri.len() {
            assert(line[i] == uri[i - 4]);
        }
    }
    crate::text::lemma_split_on_no_sep(line, '\n');
    crate::text::lemma_split_on_concat(line, e + seq!['\n'] + e, '\n');
    crate::text::lemma_split_on_concat(e, e, '\n');
    let ps = split_on(text, '\n');
    assert(ps =~= seq![line, e, e]);
    let ls = lines_of(text);
    assert(ps.drop_last() =~= seq![line, e]);
    assert(strip_cr(line) == line);
    assert(ls =~= seq![line, e]);
    assert forall|i: int| 0 <= i < get.len() implies #[trigger] get[i] != ' ' by {}
    assert forall|i: int| 0 <= i < ver.len() implies #[trigger] ver[i] != ' ' by {}
    crate::text::lemma_split_on_no_sep(get, ' ');
    crate::text::lemma_split_on_no_sep(uri, ' ');
    crate::text::lemma_split_on_no_sep(ver, ' ');
    assert(line =~= get + seq![' '] + (uri + seq![' '] + ver));
    crate::text::lemma_split_on_concat(get, uri + seq![' '] + ver, ' ');
    crate::text::lemma_split_on_concat(uri, ver, ' ');
    assert(split_on(line, ' ') =~= seq![get, uri, ver]);
    assert(request_line_uri(line) == Some(uri));
    assert(header_entries(ls, 1, Seq::empty()) == Some(Seq::<(Seq<char>, Seq<char>)>::empty()));
}

/// `s` without its last character when that is a carriage return.
fn without_cr(s: &String) -> (r: String)
    ensures
        r@ == strip_cr(s@),
{
    let t = s.as_str();
    let n = t.unicode_len();
    if n > 0 && t.get_char(n - 1) == '\r' {
        let r = String::from_str(t.substring_char(0, n - 1));
        assert(r@ =~= s@.drop_last());
        r
    } else {
        s.clone()
    }
}

/// The lines of `raw`.
pub fn lines(raw: &str) -> (r: Vec<String>)
    ensures
        views(r@) == lines_of(raw@),
{
    let pieces = split_str(raw, '\n');
    proof {
        crate::text::lemma_split_on_nonempty(raw@, '\n');
    }
    let ghost ps = split_on(raw@, '\n');
    let ghost body = ps.drop_last().map_values(|p: Seq<char>| strip_cr(p));
    let last = pieces.len() - 1;
    let mut r: Vec<String> = Vec::new();
    let mut i: usize = 0;
    while i < last
        invariant
            views(pieces@) == ps,
            last == ps.len() - 1,
            body == ps.drop_last().map_values(|p: Seq<char>| strip_cr(p)),
            body.len() == last,
            i <= last,
            views(r@) == body.subrange(0, i as int),
        decreases last - i,
    {
        assert(pieces@[i as int]@ == ps[i as int]);
        assert(ps.drop_last()[i as int] == ps[i as int]);
        assert(body[i as int] == strip_cr(ps[i as int]));
        let ghost prev = views(r@);
        r.push(without_cr(&pieces[i]));
        assert(views(r@) =~= prev.push(body[i as int]));
        assert(views(r@) =~= body.subrange(0, i as int + 1));
        i = i + 1;
    }
    assert(body.subrange(0, last as int) =~= body);
    assert(pieces@[last as int]@ == ps.last());
    if pieces[last].as_str().unicode_len() > 0 {
        r.push(pieces[last].clone());
        assert(views(r@) =~= body.push(ps.last()));
    }
    r
}

/// A Request parsed from raw text: its URI and its header entries in order of
/// appearance.
pub struct Request {
    raw: String,
    uri: String,
    headers: Vec<(String, String)>,
}

impl Request {
    /// The raw text the request was parsed from.
    pub closed spec fn spec_raw(&self) -> Seq<char> {
        self.raw@
    }

    pub closed spec fn spec_uri(&self) -> Seq<char> {
        self.uri@
    }

    pub closed spec fn spec_headers(&self) -> Seq<(Seq<char>, Seq<char>)> {
        entry_views(self.headers@)
    }

    pub fn uri(&self) -> (r: &str)
        ensures
            r@ == self.spec_uri(),
    {
        self.uri.as_str()
    }

    /// The value of header `key` (compared case-insensitively), or the empty
    /// string when there is none.
    pub fn header(&self, key: &str) -> (r: &str)
        ensures
            r@ == match header_value(self.spec_headers(), lower_of(key@)) {
                Some(v) => v,
                None => Seq::<char>::empty(),
            },
    {
        match self.get(key) {
            Some(v) => v,
            None => {
                proof {
                    reveal_strlit("");
                }
                ""
            },
        }
    }

    /// The value of header `key` (compared case-insensitively).
    pub fn get(&self, key: &str) -> (r: Option<&str>)
        ensures
            match r {
                Some(v) => header_value(self.spec_headers(), lower_of(key@)) == Some(v@),
                None => header_value(self.spec_headers(), lower_of(key@)) is None,
            },
    {
        let k = lowercase(key);
        let mut i: usize = self.headers.len();
        assert(entry_views(self.headers@).subrange(0, i as int) =~= entry_views(self.headers@));
        while i > 0
            invariant
                i <= self.headers@.len(),
                k@ == lower_of(key@),
                header_value(entry_views(self.headers@).subrange(0, i as int), k@) == header_value(
                    self.spec_headers(),
                    k@,
                ),
            decreases i,
        {
            assert(entry_views(self.headers@).subrange(0, i as int).drop_last()
                =~= entry_views(self.headers@).subrange(0, i as int - 1));
            if self.headers[i - 1].0 == k {
                return Some(self.headers[i - 1].1.as_str());
            }
            i = i - 1;
        }
        None
    }

    /// Parses `raw`. It fails when there is no first line, when that line is
    /// not `GET <uri> HTTP/1.1` with a non-empty URI, or when a line of the
    /// header block (which ends at a blank line or at the end of the input)
    /// has no colon.
    pub fn new(raw: &str) -> (r: Result<Request, ()>)
        ensures
            match r {
                Ok(req) => parse_request(raw@) == Some((req.spec_uri(), req.spec_headers()))
                    && req.spec_raw() == raw@,
                Err(_) => parse_request(raw@) is None,
            },
    {
        let ls = lines(raw);
        if ls.len() == 0 {
            return Err(());
        }
        assert(ls@[0]@ == lines_of(raw@)[0]);
        let uri = match Self::parse_get_request(&ls[0]) {
            Ok(u) => u,
            Err(_) => return Err(()),
        };
        match Self::parse_headers(&ls) {
            Ok(headers) => Ok(Request { raw: String::from_str(raw), uri, headers }),
            Err(_) => Err(()),
        }
    }

    /// The URI of a request line `GET <uri> HTTP/1.1`.
    fn parse_get_request(line: &String) -> (r: Result<String, ()>)
        ensures
            match r {
                Ok(u) => request_line_uri(line@) == Some(u@),
                Err(_) => request_line_uri(line@) is None,
            },
    {
        let fields = split_str(line.as_str(), ' ');
        if fields.len() != 3 {
            return Err(());
        }
        let get = String::from_str("GET");
        let version = String::from_str("HTTP/1.1");
        proof {
            reveal_strlit("GET");
            reveal_strlit("HTTP/1.1");
            assert(get@ =~= seq!['G', 'E', 'T']);
            assert(version@ =~= seq!['H', 'T', 'T', 'P', '/', '1', '.', '1']);
            assert(fields@[0]@ == split_on(line@, ' ')[0]);
            assert(fields@[1]@ == split_on(line@, ' ')[1]);
            assert(fields@[2]@ == split_on(line@, ' ')[2]);
        }
        if fields[0] == get && fields[2] == version && fields[1].as_str().unicode_len() > 0 {
            Ok(fields[1].clone())
        } else {
            Err(())
        }
    }

    /// The position of the first colon in `s`.
    fn find_colon(s: &str) -> (r: Option<usize>)
        ensures
            match r {
                Some(k) => first_colon_at(s@, k as int),
                None => !exists|k: int| first_colon_at(s@, k),
            },
    {
        let cs = chars_of(s);
        let mut i: usize = 0;
        while i < cs.len()
            invariant
                cs@ == s@,
                i <= cs@.len(),
                forall|j: int| 0 <= j < i ==> s@[j] != ':',
            decreases cs@.len() - i,
        {
            if cs[i] == ':' {
                return Some(i);
            }
            i = i + 1;
        }
        None
    }

    /// The header entries of the lines after the request line.
    fn parse_headers(ls: &Vec<String>) -> (r: Result<Vec<(String, String)>, ()>)
        ensures
            match r {
                Ok(hs) => header_entries(views(ls@), 1, Seq::empty()) == Some(entry_views(hs@)),
                Err(_) => header_entries(views(ls@), 1, Seq::empty()) is None,
            },
    {
        let ghost vs = views(ls@);
        let mut hs: Vec<(String, String)> = Vec::new();
        let mut i: usize = 1;
        assert(entry_views(hs@) =~= Seq::empty());
        while i < ls.len()
            invariant
                vs == views(ls@),
                1 <= i,
                header_entries(vs, 1, Seq::empty()) == header_entries(vs, i as int, entry_views(hs@)),
            decreases ls@.len() - i,
        {
            let line = ls[i].as_str();
            assert(line@ == vs[i as int]);
            if line.unicode_len() == 0 {
                return Ok(hs);
            }
            match Self::find_colon(line) {
                None => return Err(()),
                Some(k) => {
                    let n = line.unicode_len();
                    let key = lowercase(trim_str(line.substring_char(0, k)));
                    let value = String::from_str(trim_str(line.substring_char(k + 1, n)));
                    proof {
                        let c = choose|c: int| first_colon_at(line@, c);
                        assert(c == k);
                    }
                    let ghost prev = entry_views(hs@);
                    hs.push((key, value));
                    assert(entry_views(hs@) =~= prev.push(header_entry(vs[i as int])));
                },
            }
            i = i + 1;
        }
        Ok(hs)
    }
}

} // verus!
