//! The HTTP request: its data model, an exact byte-level grammar, the
//! parser, and the serialiser.  The grammar: a start line `METHOD SP
//! URI SP VERSION`, then header lines `Name: value`, each line ended by
//! CRLF, a blank line, and, when a `Content-Length` header names one, a
//! body of exactly that many bytes.  Header names are read without case;
//! a repeated name keeps the later value.  Lines holding a stray
//! carriage return or line feed are rejected as malformed.

use vstd::prelude::*;

use crate::bytescan::{bytes_range, find_at, find_pattern, join_sep, lemma_find_at_bounds,
    lemma_find_at_first, lemma_match_one, match_at, split_from};
use crate::http::{is_known_req_name, method_chars, req_name, req_wire_name, spec_method_of, spec_req_header_of, Method, RequestHeader};
use crate::http::hdr_name_chars_ok;
use crate::text::{
    all_digits, byte_chars, bytes_of_chars, bytes_to_string, chars_of_bytes, dec_value,
    lemma_chars_of_bytes_roundtrip, lemma_lower_chars_props, lower_chars, parse_u64_digits,
    to_lowercase,
};
use crate::wildcard::str_chars;

verus! {

pub open spec fn crlf() -> Seq<u8> {
    seq![13u8, 10u8]
}

pub open spec fn crlf2() -> Seq<u8> {
    seq![13u8, 10u8, 13u8, 10u8]
}

/// Why a request could not be read: the connection failed or ended
/// (`Stream`), the bytes were malformed (`Request`), the method is not
/// recognised (`Unsupported`), or the peer took too long (`Timeout`).
#[derive(Clone, Copy, PartialEq, Eq, Structural, Debug)]
pub enum RequestError {
    Stream,
    Request,
    Unsupported,
    Timeout,
}

/// The mathematical shape of a request: the header list keeps wire
/// order and holds lower-case names.
#[verifier::ext_equal]
pub struct ReqView {
    pub method: Method,
    pub uri: Seq<char>,
    pub version: Seq<char>,
    pub headers: Seq<(Seq<char>, Seq<char>)>,
    pub content: Option<Seq<u8>>,
    pub address: Seq<char>,
}

/// An HTTP request.
#[derive(Debug, PartialEq)]
pub struct Request {
    pub method: Method,
    pub uri: String,
    pub version: String,
    pub headers: Vec<(RequestHeader, String)>,
    pub content: Option<Vec<u8>>,
    pub address: String,
}

/// The header list as named values.
pub open spec fn headers_view(hs: Seq<(RequestHeader, String)>) -> Seq<(Seq<char>, Seq<char>)> {
    hs.map(|_i: int, p: (RequestHeader, String)| (req_name(p.0), p.1@))
}

impl View for Request {
    type V = ReqView;

    open spec fn view(&self) -> ReqView {
        ReqView {
            method: self.method,
            uri: self.uri@,
            version: self.version@,
            headers: headers_view(self.headers@),
            content: match self.content {
                Some(c) => Some(c@),
                None => None,
            },
            address: self.address@,
        }
    }
}

/// The value under `name` in a named header list.  Entries are read
/// front to back; a list never holds a name twice, since writing an
/// existing name overwrites it in place.
pub open spec fn view_lookup(hs: Seq<(Seq<char>, Seq<char>)>, name: Seq<char>) -> Option<
    Seq<char>,
>
    decreases hs.len(),
{
    if hs.len() == 0 {
        None
    } else if hs[0].0 == name {
        Some(hs[0].1)
    } else {
        view_lookup(hs.drop_first(), name)
    }
}

/// No two entries of a named header list share a name.
pub open spec fn view_names_unique(hs: Seq<(Seq<char>, Seq<char>)>) -> bool {
    forall|i: int, j: int| 0 <= i < j < hs.len() ==> (#[trigger] hs[i]).0 != (#[trigger] hs[j]).0
}

/// Whether some entry carries `name`.
pub open spec fn name_in(hs: Seq<(Seq<char>, Seq<char>)>, name: Seq<char>) -> bool {
    exists|i: int| 0 <= i < hs.len() && (#[trigger] hs[i]).0 == name
}

/// The list after writing `v` under `name`: the first entry with that
/// name is replaced in place, or a new entry is appended.
pub open spec fn upsert_hdr(
    hs: Seq<(Seq<char>, Seq<char>)>,
    name: Seq<char>,
    v: Seq<char>,
) -> Seq<(Seq<char>, Seq<char>)>
    decreases hs.len(),
{
    if hs.len() == 0 {
        seq![(name, v)]
    } else if hs[0].0 == name {
        seq![(name, v)] + hs.drop_first()
    } else {
        seq![hs[0]] + upsert_hdr(hs.drop_first(), name, v)
    }
}

/// When entry `i` is the first to carry `name`, the upsert is exactly
/// an update of entry `i`.
pub proof fn lemma_upsert_found(
    hs: Seq<(Seq<char>, Seq<char>)>,
    name: Seq<char>,
    v: Seq<char>,
    i: int,
)
    requires
        0 <= i < hs.len(),
        hs[i].0 == name,
        forall|k: int| 0 <= k < i ==> (#[trigger] hs[k]).0 != name,
    ensures
        upsert_hdr(hs, name, v) =~= hs.update(i, (name, v)),
    decreases i,
{
    if i == 0 {
        assert(upsert_hdr(hs, name, v) =~= hs.update(0, (name, v)));
    } else {
        assert(hs[0].0 != name);
        assert forall|k: int| 0 <= k < i - 1 implies (#[trigger] hs.drop_first()[k]).0 != name by {
            assert(hs.drop_first()[k] == hs[k + 1]);
        }
        assert(hs.drop_first()[i - 1] == hs[i]);
        lemma_upsert_found(hs.drop_first(), name, v, i - 1);
        assert(upsert_hdr(hs, name, v) =~= hs.update(i, (name, v)));
    }
}

/// When no entry carries `name`, the upsert appends.
pub proof fn lemma_upsert_absent(hs: Seq<(Seq<char>, Seq<char>)>, name: Seq<char>, v: Seq<char>)
    requires
        forall|k: int| 0 <= k < hs.len() ==> (#[trigger] hs[k]).0 != name,
    ensures
        upsert_hdr(hs, name, v) =~= hs.push((name, v)),
    decreases hs.len(),
{
    if hs.len() > 0 {
        assert forall|k: int|
            0 <= k < hs.drop_first().len() implies (#[trigger] hs.drop_first()[k]).0 != name by {
            assert(hs.drop_first()[k] == hs[k + 1]);
        }
        lemma_upsert_absent(hs.drop_first(), name, v);
        assert(upsert_hdr(hs, name, v) =~= hs.push((name, v)));
    }
}

/// Upserting a one-byte-per-character entry keeps every entry's text
/// one byte per character.
pub proof fn lemma_upsert_bytes(hs: Seq<(Seq<char>, Seq<char>)>, n: Seq<char>, v: Seq<char>)
    requires
        forall|i: int|
            0 <= i < hs.len() ==> byte_chars((#[trigger] hs[i]).0) && byte_chars(hs[i].1),
        byte_chars(n),
        byte_chars(v),
    ensures
        forall|i: int|
            0 <= i < upsert_hdr(hs, n, v).len() ==> byte_chars(
                (#[trigger] upsert_hdr(hs, n, v)[i]).0,
            ) && byte_chars(upsert_hdr(hs, n, v)[i].1),
    decreases hs.len(),
{
    let r = upsert_hdr(hs, n, v);
    if hs.len() == 0 {
        assert(r[0] == (n, v));
    } else if hs[0].0 == n {
        assert forall|i: int| 0 <= i < r.len() implies byte_chars((#[trigger] r[i]).0)
            && byte_chars(r[i].1) by {
            if i == 0 {
                assert(r[0] == (n, v));
            } else {
                assert(r[i] == hs[i]);
            }
        }
    } else {
        let tail = hs.drop_first();
        assert forall|i: int| 0 <= i < tail.len() implies byte_chars((#[trigger] tail[i]).0)
            && byte_chars(tail[i].1) by {
            assert(tail[i] == hs[i + 1]);
        }
        lemma_upsert_bytes(tail, n, v);
        let rt = upsert_hdr(tail, n, v);
        assert forall|i: int| 0 <= i < r.len() implies byte_chars((#[trigger] r[i]).0)
            && byte_chars(r[i].1) by {
            if i == 0 {
                assert(r[0] == hs[0]);
            } else {
                assert(r[i] == rt[i - 1]);
            }
        }
    }
}

/// Upserting keeps names unique, and adds no name but the written one.
pub proof fn lemma_upsert_unique(hs: Seq<(Seq<char>, Seq<char>)>, name: Seq<char>, v: Seq<char>)
    requires
        view_names_unique(hs),
    ensures
        view_names_unique(upsert_hdr(hs, name, v)),
        forall|n2: Seq<char>|
            #[trigger] name_in(upsert_hdr(hs, name, v), n2) <==> (n2 == name || name_in(hs, n2)),
    decreases hs.len(),
{
    let r = upsert_hdr(hs, name, v);
    if hs.len() == 0 {
        assert forall|n2: Seq<char>| #[trigger] name_in(r, n2) implies (n2 == name || name_in(
            hs,
            n2,
        )) by {
            let i = choose|i: int| 0 <= i < r.len() && (#[trigger] r[i]).0 == n2;
            assert(r[i] == (name, v));
        }
        assert(r[0].0 == name);
        assert(forall|n2: Seq<char>|
            (n2 == name || name_in(hs, n2)) ==> #[trigger] name_in(r, n2));
    } else if hs[0].0 == name {
        assert(r =~= hs.update(0, (name, v)));
        assert forall|i: int, j: int| 0 <= i < j < r.len() implies (#[trigger] r[i]).0 != (
        #[trigger] r[j]).0 by {
            assert(hs[i].0 != hs[j].0);
        }
        assert forall|n2: Seq<char>| #[trigger] name_in(r, n2) implies (n2 == name || name_in(
            hs,
            n2,
        )) by {
            let i = choose|i: int| 0 <= i < r.len() && (#[trigger] r[i]).0 == n2;
            if i > 0 {
                assert(hs[i].0 == n2);
            }
        }
        assert forall|n2: Seq<char>| (n2 == name || name_in(hs, n2)) implies #[trigger] name_in(
            r,
            n2,
        ) by {
            if n2 == name {
                assert(r[0].0 == n2);
            } else {
                let i = choose|i: int| 0 <= i < hs.len() && (#[trigger] hs[i]).0 == n2;
                assert(i != 0);
                assert(r[i].0 == n2);
            }
        }
    } else {
        let tail = hs.drop_first();
        assert forall|i: int, j: int| 0 <= i < j < tail.len() implies (#[trigger] tail[i]).0 != (
        #[trigger] tail[j]).0 by {
            assert(tail[i] == hs[i + 1]);
            assert(tail[j] == hs[j + 1]);
        }
        lemma_upsert_unique(tail, name, v);
        let rt = upsert_hdr(tail, name, v);
        assert(r =~= seq![hs[0]] + rt);
        assert forall|i: int, j: int| 0 <= i < j < r.len() implies (#[trigger] r[i]).0 != (
        #[trigger] r[j]).0 by {
            if i == 0 {
                assert(r[j].0 == rt[j - 1].0);
                assert(name_in(rt, r[j].0));
                if r[j].0 == name {
                    assert(hs[0].0 != name);
                } else {
                    assert(name_in(tail, r[j].0));
                    let k = choose|k: int| 0 <= k < tail.len() && (#[trigger] tail[k]).0 == r[j].0;
                    assert(tail[k] == hs[k + 1]);
                    assert(hs[0].0 != hs[k + 1].0);
                }
            } else {
                assert(r[i].0 == rt[i - 1].0);
                assert(r[j].0 == rt[j - 1].0);
            }
        }
        assert forall|n2: Seq<char>| #[trigger] name_in(r, n2) implies (n2 == name || name_in(
            hs,
            n2,
        )) by {
            let i = choose|i: int| 0 <= i < r.len() && (#[trigger] r[i]).0 == n2;
            if i == 0 {
                assert(hs[0].0 == n2);
            } else {
                assert(rt[i - 1].0 == n2);
                assert(name_in(rt, n2));
                if n2 != name {
                    assert(name_in(tail, n2));
                    let k = choose|k: int| 0 <= k < tail.len() && (#[trigger] tail[k]).0 == n2;
                    assert(hs[k + 1].0 == n2);
                }
            }
        }
        assert forall|n2: Seq<char>| (n2 == name || name_in(hs, n2)) implies #[trigger] name_in(
            r,
            n2,
        ) by {
            if n2 == name {
                assert(name_in(rt, n2));
                let k = choose|k: int| 0 <= k < rt.len() && (#[trigger] rt[k]).0 == n2;
                assert(r[k + 1].0 == n2);
            } else {
                let i = choose|i: int| 0 <= i < hs.len() && (#[trigger] hs[i]).0 == n2;
                if i == 0 {
                    assert(r[0].0 == n2);
                } else {
                    assert(tail[i - 1].0 == n2);
                    assert(name_in(tail, n2));
                    assert(name_in(rt, n2));
                    let k = choose|k: int| 0 <= k < rt.len() && (#[trigger] rt[k]).0 == n2;
                    assert(r[k + 1].0 == n2);
                }
            }
        }
    }
}

/// A line free of carriage returns and line feeds.
pub open spec fn clean_line(l: Seq<u8>) -> bool {
    forall|i: int| #![auto] 0 <= i < l.len() ==> l[i] != 13 && l[i] != 10
}

/// Leading spaces and horizontal tabs removed.
pub open spec fn trim_start_ws(v: Seq<u8>) -> Seq<u8>
    decreases v.len(),
{
    if v.len() > 0 && (v[0] == 32 || v[0] == 9) {
        trim_start_ws(v.drop_first())
    } else {
        v
    }
}

/// Reading the start line: the method up to the first space, the URI up
/// to the next, the version verbatim after that.
pub open spec fn spec_parse_start(line: Seq<u8>) -> Result<
    (Method, Seq<char>, Seq<char>),
    RequestError,
> {
    match find_at(line, seq![32u8], 0) {
        None => Err(RequestError::Request),
        Some(s1) => {
            let rest = line.skip(s1 + 1);
            match find_at(rest, seq![32u8], 0) {
                None => Err(RequestError::Request),
                Some(s2) => match spec_method_of(chars_of_bytes(line.take(s1))) {
                    None => Err(RequestError::Unsupported),
                    Some(m) => Ok(
                        (m, chars_of_bytes(rest.take(s2)), chars_of_bytes(rest.skip(s2 + 1))),
                    ),
                },
            }
        },
    }
}

/// Reading one header line: the name before the first colon, folded to
/// lower case; the value after it, leading blanks dropped.
pub open spec fn spec_parse_header(line: Seq<u8>) -> Result<(Seq<char>, Seq<char>), RequestError> {
    match find_at(line, seq![58u8], 0) {
        None => Err(RequestError::Request),
        Some(c) => Ok(
            (
                lower_chars(chars_of_bytes(line.take(c))),
                chars_of_bytes(trim_start_ws(line.skip(c + 1))),
            ),
        ),
    }
}

/// Reading the header lines `lines[k..]` on top of those already read.
pub open spec fn spec_parse_headers(
    lines: Seq<Seq<u8>>,
    k: int,
    acc: Seq<(Seq<char>, Seq<char>)>,
) -> Result<Seq<(Seq<char>, Seq<char>)>, RequestError>
    decreases lines.len() - k when 0 <= k
{
    if k >= lines.len() {
        Ok(acc)
    } else {
        match spec_parse_header(lines[k]) {
            Err(e) => Err(e),
            Ok((n, v)) => spec_parse_headers(lines, k + 1, upsert_hdr(acc, n, v)),
        }
    }
}

/// Reading a whole request from `b`, with the peer's address attached.
/// The head runs to the first blank line; missing one means the stream
/// ended early.  A `Content-Length` of zero is no body at all, and a
/// body shorter than announced means the stream ended early.
pub open spec fn spec_parse_request(b: Seq<u8>, address: Seq<char>) -> Result<
    ReqView,
    RequestError,
> {
    match find_at(b, crlf2(), 0) {
        None => Err(RequestError::Stream),
        Some(t) => {
            let head = b.take(t);
            let rest = b.skip(t + 4);
            let lines = split_from(head, crlf(), 0);
            if exists|k: int| #![auto] 0 <= k < lines.len() && !clean_line(lines[k]) {
                Err(RequestError::Request)
            } else {
                match spec_parse_start(lines[0]) {
                    Err(e) => Err(e),
                    Ok((m, uri, ver)) => match spec_parse_headers(lines, 1, Seq::empty()) {
                        Err(e) => Err(e),
                        Ok(hs) => {
                            let base = ReqView {
                                method: m,
                                uri: uri,
                                version: ver,
                                headers: hs,
                                content: None,
                                address: address,
                            };
                            match view_lookup(hs, "content-length"@) {
                                None => Ok(base),
                                Some(clv) => if !(all_digits(clv) && dec_value(clv)
                                    <= u64::MAX) {
                                    Err(RequestError::Request)
                                } else if dec_value(clv) == 0 {
                                    Ok(base)
                                } else if rest.len() < dec_value(clv) {
                                    Err(RequestError::Stream)
                                } else {
                                    Ok(
                                        ReqView {
                                            content: Some(rest.take(dec_value(clv))),
                                            ..base
                                        },
                                    )
                                },
                            }
                        },
                    },
                }
            }
        },
    }
}

/// Checks a line for stray carriage returns and line feeds.
fn is_clean_line(l: &[u8]) -> (r: bool)
    ensures
        r == clean_line(l@),
{
    let mut i: usize = 0;
    while i < l.len()
        invariant
            0 <= i <= l@.len(),
            forall|k: int| #![auto] 0 <= k < i ==> l@[k] != 13 && l@[k] != 10,
        decreases l@.len() - i,
    {
        if l[i] == 13 || l[i] == 10 {
            return false;
        }
        i += 1;
    }
    true
}

/// Writes `v` under `h` into the header list: replaces the first entry
/// with the same name in place, or appends.
pub fn set_req_header(headers: &mut Vec<(RequestHeader, String)>, h: RequestHeader, v: String)
    ensures
        headers_view(final(headers)@) == upsert_hdr(headers_view(old(headers)@), req_name(h), v@),
        forall|k: int|
            0 <= k < final(headers)@.len() ==> #[trigger] final(headers)@[k] == (h, v) || (0 <= k
                < old(headers)@.len() && final(headers)@[k] == old(headers)@[k]),
{
    let name = h.name();
    let mut i: usize = 0;
    while i < headers.len()
        invariant
            headers@ == old(headers)@,
            0 <= i <= headers@.len(),
            name@ == req_name(h),
            forall|k: int| 0 <= k < i ==> req_name((#[trigger] headers@[k]).0) != req_name(h),
        decreases headers@.len() - i,
    {
        let ename = headers[i].0.name();
        if ename == name {
            let ghost old_hs = headers@;
            headers[i] = (h, v);
            proof {
                let hv = headers_view(old_hs);
                assert forall|k: int| 0 <= k < i implies (#[trigger] hv[k]).0 != req_name(h) by {
                    assert(hv[k].0 == req_name(old_hs[k].0));
                }
                assert(hv[i as int].0 == req_name(h));
                lemma_upsert_found(hv, req_name(h), v@, i as int);
                assert(headers_view(headers@) =~= hv.update(i as int, (req_name(h), v@)));
            }
            return ;
        }
        i += 1;
    }
    headers.push((h, v));
    proof {
        let hv = headers_view(old(headers)@);
        assert forall|k: int| 0 <= k < hv.len() implies (#[trigger] hv[k]).0 != req_name(h) by {
            assert(hv[k].0 == req_name(old(headers)@[k].0));
        }
        lemma_upsert_absent(hv, req_name(h), v@);
        assert(headers_view(headers@) =~= hv.push((req_name(h), v@)));
    }
}

/// The views of a vector of byte lines.
pub open spec fn lines_views(ls: Seq<Vec<u8>>) -> Seq<Seq<u8>> {
    ls.map(|_i: int, l: Vec<u8>| l@)
}

/// Reads the value stored under `name`, the latest entry winning.
pub fn get_req_header(headers: &Vec<(RequestHeader, String)>, name: &RequestHeader) -> (r: Option<
    String,
>)
    ensures
        match r {
            Some(v) => view_lookup(headers_view(headers@), req_name(*name)) == Some(v@),
            None => view_lookup(headers_view(headers@), req_name(*name)) is None,
        },
{
    let n = name.name();
    let ghost hv = headers_view(headers@);
    let mut i: usize = 0;
    proof {
        assert(hv.skip(0) =~= hv);
    }
    while i < headers.len()
        invariant
            0 <= i <= headers@.len(),
            hv == headers_view(headers@),
            n@ == req_name(*name),
            view_lookup(hv, req_name(*name)) == view_lookup(hv.skip(i as int), req_name(*name)),
        decreases headers@.len() - i,
    {
        let ename = headers[i].0.name();
        proof {
            assert(hv.skip(i as int)[0] == hv[i as int]);
            assert(hv[i as int].0 == req_name(headers@[i as int].0));
            assert(hv.skip(i as int).drop_first() =~= hv.skip(i + 1));
        }
        if ename == n {
            return Some(headers[i].1.clone());
        }
        i += 1;
    }
    proof {
        assert(hv.skip(headers@.len() as int) =~= Seq::<(Seq<char>, Seq<char>)>::empty());
    }
    None
}

impl Request {
    /// Reads the value of one header, if the request carries it.
    pub fn header(&self, name: &RequestHeader) -> (r: Option<String>)
        ensures
            match r {
                Some(v) => view_lookup(self@.headers, req_name(*name)) == Some(v@),
                None => view_lookup(self@.headers, req_name(*name)) is None,
            },
    {
        get_req_header(&self.headers, name)
    }

    /// Reads one request from bytes, exactly as `spec_parse_request`
    /// describes, recording the peer's address.
    #[verifier::loop_isolation(false)]
    pub fn parse(bytes: &[u8], address: &str) -> (r: Result<Request, RequestError>)
        ensures
            match r {
                Ok(req) => spec_parse_request(bytes@, address@) == Ok::<ReqView, RequestError>(
                    req@,
                ) && headers_normalized(req.headers@) && canonical_req(req@) && serialisable(req@),
                Err(e) => spec_parse_request(bytes@, address@) == Err::<ReqView, RequestError>(e),
            },
    {
        proof {
            lemma_parse_canonical(bytes@, address@);
        }
        let crlf2_v: Vec<u8> = vec![13u8, 10u8, 13u8, 10u8];
        let crlf_v: Vec<u8> = vec![13u8, 10u8];
        let sp_v: Vec<u8> = vec![32u8];
        let colon_v: Vec<u8> = vec![58u8];
        proof {
            assert(crlf2_v@ =~= crlf2());
            assert(crlf_v@ =~= crlf());
            assert(sp_v@ =~= seq![32u8]);
            assert(colon_v@ =~= seq![58u8]);
        }
        let t = match find_pattern(bytes, crlf2_v.as_slice(), 0) {
            Some(t) => t,
            None => {
                return Err(RequestError::Stream);
            },
        };
        let head = bytes_range(bytes, 0, t);
        proof {
            assert(head@ =~= bytes@.take(t as int));
        }

        // Cut the head into its CRLF-separated lines.
        let ghost gl = split_from(head@, crlf(), 0);
        let ghost sl = split_from(bytes@.take(t as int), crlf(), 0);
        proof {
            assert(gl == sl);
        }
        let hlen = head.len();
        let mut lines: Vec<Vec<u8>> = Vec::new();
        let mut pos: usize = 0;
        proof {
            assert(lines_views(lines@) =~= Seq::<Seq<u8>>::empty());
            assert(gl =~= lines_views(lines@) + split_from(head@, crlf(), 0));
        }
        #[verifier::loop_isolation(true)]
        loop
            invariant_except_break
                0 <= pos <= head@.len(),
                hlen == head@.len(),
                crlf_v@ == crlf(),
                gl == lines_views(lines@) + split_from(head@, crlf(), pos as int),
            ensures
                gl == lines_views(lines@),
            decreases head@.len() - pos,
        {
            let ghost pre = lines_views(lines@);
            match find_pattern(head.as_slice(), crlf_v.as_slice(), pos) {
                Some(i) => {
                    let piece = bytes_range(head.as_slice(), pos, i);
                    lines.push(piece);
                    proof {
                        assert(lines_views(lines@) =~= pre.push(head@.subrange(pos as int, i as int)));
                        assert(lines_views(lines@) + split_from(head@, crlf(), i + 2) =~= pre + (seq![
                            head@.subrange(pos as int, i as int),
                        ] + split_from(head@, crlf(), i + 2)));
                    }
                    pos = i + 2;
                },
                None => {
                    let hlen = head.len();
                    let piece = bytes_range(head.as_slice(), pos, hlen);
                    lines.push(piece);
                    proof {
                        assert(split_from(head@, crlf(), pos as int) =~= seq![
                            head@.subrange(pos as int, head@.len() as int),
                        ]);
                        assert(lines_views(lines@) =~= pre.push(
                            head@.subrange(pos as int, head@.len() as int),
                        ));
                        assert(gl =~= lines_views(lines@));
                    }
                    break ;
                },
            }
        }
        proof {
            crate::bytescan::lemma_split_from_len(head@, crlf(), 0);
            assert(lines@.len() == gl.len());
        }

        // Reject stray carriage returns or line feeds inside any line.
        let mut k: usize = 0;
        while k < lines.len()
            invariant
                0 <= k <= lines@.len(),
                gl == lines_views(lines@),
                forall|j: int| #![auto] 0 <= j < k ==> clean_line(gl[j]),
            decreases lines@.len() - k,
        {
            if !is_clean_line(lines[k].as_slice()) {
                proof {
                    assert(gl[k as int] == lines@[k as int]@);
                    let sl = split_from(bytes@.take(t as int), crlf(), 0);
                    assert(gl == sl);
                    assert(0 <= k < sl.len() && !clean_line(sl[k as int]));
                }
                return Err(RequestError::Request);
            }
            proof {
                assert(gl[k as int] == lines@[k as int]@);
            }
            k += 1;
        }
        proof {
            let sl = split_from(bytes@.take(t as int), crlf(), 0);
            assert(gl == sl);
            assert forall|j: int| #![auto] 0 <= j < sl.len() implies clean_line(sl[j]) by {
                assert(sl[j] == gl[j]);
            }
            assert(!(exists|j: int| #![auto] 0 <= j < sl.len() && !clean_line(sl[j])));
        }

        // The start line: method, URI, version.
        let line0 = &lines[0];
        proof {
            assert(gl[0] == line0@);
        }
        let s1 = match find_pattern(line0.as_slice(), sp_v.as_slice(), 0) {
            Some(i) => i,
            None => {
                return Err(RequestError::Request);
            },
        };
        let l0len = line0.len();
        let rest0 = bytes_range(line0.as_slice(), s1 + 1, l0len);
        proof {
            assert(rest0@ =~= line0@.skip(s1 + 1));
        }
        let s2 = match find_pattern(rest0.as_slice(), sp_v.as_slice(), 0) {
            Some(i) => i,
            None => {
                return Err(RequestError::Request);
            },
        };
        let mbytes = bytes_range(line0.as_slice(), 0, s1);
        proof {
            assert(mbytes@ =~= line0@.take(s1 as int));
        }
        let method_str = bytes_to_string(mbytes.as_slice());
        let method = match Method::from_name(&method_str) {
            Some(m) => m,
            None => {
                return Err(RequestError::Unsupported);
            },
        };
        let ubytes = bytes_range(rest0.as_slice(), 0, s2);
        let r0len = rest0.len();
        let vbytes = bytes_range(rest0.as_slice(), s2 + 1, r0len);
        proof {
            assert(ubytes@ =~= rest0@.take(s2 as int));
            assert(vbytes@ =~= rest0@.skip(s2 + 1));
        }
        let uri = bytes_to_string(ubytes.as_slice());
        let version = bytes_to_string(vbytes.as_slice());
        proof {
            assert(spec_parse_start(gl[0]) == Ok::<(Method, Seq<char>, Seq<char>), RequestError>(
                (method, uri@, version@),
            ));
        }

        // The header lines.
        let mut headers: Vec<(RequestHeader, String)> = Vec::new();
        let mut k: usize = 1;
        proof {
            assert(headers_view(headers@) =~= Seq::<(Seq<char>, Seq<char>)>::empty());
        }
        while k < lines.len()
            invariant
                1 <= k <= lines@.len(),
                gl == lines_views(lines@),
                colon_v@ == seq![58u8],
                spec_parse_headers(gl, 1, Seq::empty()) == spec_parse_headers(
                    gl,
                    k as int,
                    headers_view(headers@),
                ),
                headers_normalized(headers@),
            decreases lines@.len() - k,
        {
            let line = &lines[k];
            proof {
                assert(gl[k as int] == line@);
            }
            let c = match find_pattern(line.as_slice(), colon_v.as_slice(), 0) {
                Some(c) => c,
                None => {
                    return Err(RequestError::Request);
                },
            };
            let nbytes = bytes_range(line.as_slice(), 0, c);
            proof {
                assert(nbytes@ =~= line@.take(c as int));
            }
            let raw_name = bytes_to_string(nbytes.as_slice());
            let name = to_lowercase(raw_name.as_str());

            // Skip the blanks that open the value.
            let llen = line.len();
            let mut vstart: usize = c + 1;
            proof {
                assert(line@.skip(c + 1) =~= line@.skip(vstart as int));
            }
            while vstart < llen && (line[vstart] == 32 || line[vstart] == 9)
                invariant
                    c + 1 <= vstart <= llen,
                    llen == line@.len(),
                    trim_start_ws(line@.skip(c + 1)) == trim_start_ws(line@.skip(vstart as int)),
                decreases llen - vstart,
            {
                proof {
                    assert(line@.skip(vstart as int)[0] == line@[vstart as int]);
                    assert(line@.skip(vstart as int).drop_first() =~= line@.skip(vstart + 1));
                }
                vstart += 1;
            }
            proof {
                if vstart < llen {
                    assert(line@.skip(vstart as int)[0] == line@[vstart as int]);
                }
                assert(trim_start_ws(line@.skip(vstart as int)) == line@.skip(vstart as int));
            }
            let wbytes = bytes_range(line.as_slice(), vstart, llen);
            proof {
                assert(wbytes@ =~= line@.skip(vstart as int));
            }
            let value = bytes_to_string(wbytes.as_slice());
            proof {
                assert(spec_parse_header(gl[k as int]) == Ok::<(Seq<char>, Seq<char>), RequestError>(
                    (name@, value@),
                ));
            }
            let h = RequestHeader::from_name(name);
            proof {
                match &h {
                    RequestHeader::Custom(s) => {
                        assert(!is_known_req_name(s@));
                    },
                    _ => {},
                }
            }
            set_req_header(&mut headers, h, value);
            k += 1;
        }
        let ghost hs = headers_view(headers@);
        proof {
            assert(spec_parse_headers(gl, 1, Seq::empty()) == Ok::<
                Seq<(Seq<char>, Seq<char>)>,
                RequestError,
            >(hs));
        }

        // The body, when a Content-Length header names one.
        let cl_opt = get_req_header(&headers, &RequestHeader::ContentLength);
        match cl_opt {
            None => {
                let req = Request {
                    method: method,
                    uri: uri,
                    version: version,
                    headers: headers,
                    content: None,
                    address: String::from_str(address),
                };
                proof {
                    let ghost sv = match spec_parse_request(bytes@, address@) {
                        Ok(v) => v,
                        Err(_) => arbitrary(),
                    };
                    assert(sv =~= req@);
                }
                Ok(req)
            },
            Some(cl_str) => {
                let cl_chars = str_chars(cl_str.as_str());
                match parse_u64_digits(cl_chars.as_slice()) {
                    None => Err(RequestError::Request),
                    Some(cl) => {
                        if cl == 0 {
                            let req = Request {
                                method: method,
                                uri: uri,
                                version: version,
                                headers: headers,
                                content: None,
                                address: String::from_str(address),
                            };
                            proof {
                                let ghost sv = match spec_parse_request(bytes@, address@) {
                                    Ok(v) => v,
                                    Err(_) => arbitrary(),
                                };
                                assert(sv =~= req@);
                            }
                            Ok(req)
                        } else {
                            let rest_len = bytes.len() - (t + 4);
                            if (rest_len as u64) < cl {
                                Err(RequestError::Stream)
                            } else {
                                let body = bytes_range(bytes, t + 4, t + 4 + (cl as usize));
                                proof {
                                    assert(body@ =~= bytes@.skip(t + 4).take(dec_value(cl_str@)));
                                }
                                let req = Request {
                                    method: method,
                                    uri: uri,
                                    version: version,
                                    headers: headers,
                                    content: Some(body),
                                    address: String::from_str(address),
                                };
                                proof {
                                    let ghost sv = match spec_parse_request(bytes@, address@) {
                                        Ok(v) => v,
                                        Err(_) => arbitrary(),
                                    };
                                    assert(sv =~= req@);
                                }
                                Ok(req)
                            }
                        }
                    },
                }
            },
        }
    }
}

/// Every character of every textual field fits in a byte, so the
/// request can be written on the wire.
pub open spec fn serialisable(r: ReqView) -> bool {
    &&& byte_chars(r.uri)
    &&& byte_chars(r.version)
    &&& forall|i: int|
        0 <= i < r.headers.len() ==> byte_chars((#[trigger] r.headers[i]).0) && byte_chars(
            r.headers[i].1,
        )
}

/// Known names are stored as their own variant, never inside `Custom`.
pub open spec fn headers_normalized(hs: Seq<(RequestHeader, String)>) -> bool {
    forall|i: int|
        0 <= i < hs.len() ==> match (#[trigger] hs[i]).0 {
            RequestHeader::Custom(s) => !is_known_req_name(s@),
            _ => true,
        }
}

pub open spec fn start_line_chars(r: ReqView) -> Seq<char> {
    method_chars(r.method) + " "@ + r.uri + " "@ + r.version
}

/// The form a lower-case name takes on the wire: the capitalised form
/// for a known name, the name itself otherwise.
pub open spec fn wire_of(n: Seq<char>) -> Seq<char> {
    if is_known_req_name(n) {
        req_wire_name(spec_req_header_of(n))
    } else {
        n
    }
}

pub open spec fn header_line_chars(n: Seq<char>, v: Seq<char>) -> Seq<char> {
    wire_of(n) + ": "@ + v
}

/// The head lines a request is written as.
pub open spec fn head_lines_of(r: ReqView) -> Seq<Seq<u8>> {
    seq![bytes_of_chars(start_line_chars(r))] + r.headers.map(
        |_i: int, p: (Seq<char>, Seq<char>)| bytes_of_chars(header_line_chars(p.0, p.1)),
    )
}

pub open spec fn body_of(r: ReqView) -> Seq<u8> {
    match r.content {
        Some(c) => c,
        None => Seq::empty(),
    }
}

/// The bytes a request is written as: the head lines joined by CRLF, a
/// blank line, and the body.
pub open spec fn request_bytes(r: ReqView) -> Seq<u8> {
    join_sep(head_lines_of(r), crlf()) + crlf2() + body_of(r)
}

/// Joining one more piece appends a separator and the piece.
pub proof fn lemma_join_push(pieces: Seq<Seq<u8>>, p: Seq<u8>, x: Seq<u8>)
    requires
        pieces.len() >= 1,
    ensures
        join_sep(pieces.push(x), p) == join_sep(pieces, p) + p + x,
    decreases pieces.len(),
{
    if pieces.len() == 1 {
        assert(pieces.push(x).drop_first() =~= seq![x]);
        assert(join_sep(seq![x], p) == x);
        assert(join_sep(pieces.push(x), p) =~= pieces[0] + p + x);
        assert(join_sep(pieces, p) + p + x =~= pieces[0] + p + x);
    } else {
        assert(pieces.push(x).drop_first() =~= pieces.drop_first().push(x));
        lemma_join_push(pieces.drop_first(), p, x);
        assert(join_sep(pieces.push(x), p) =~= join_sep(pieces, p) + p + x);
    }
}

/// Appends the low bytes of a string to the output.
pub fn push_str_bytes(out: &mut Vec<u8>, s: &str)
    requires
        byte_chars(s@),
    ensures
        final(out)@ == old(out)@ + bytes_of_chars(s@),
{
    let n = s.unicode_len();
    let mut i: usize = 0;
    while i < n
        invariant
            byte_chars(s@),
            n == s@.len(),
            0 <= i <= n,
            out@ =~= old(out)@ + bytes_of_chars(s@).take(i as int),
        decreases n - i,
    {
        let c = s.get_char(i);
        out.push(c as u8);
        proof {
            assert(out@ =~= old(out)@ + bytes_of_chars(s@).take(i + 1));
        }
        i += 1;
    }
    proof {
        assert(bytes_of_chars(s@).take(s@.len() as int) =~= bytes_of_chars(s@));
    }
}

impl Request {
    /// Writes the request on the wire, exactly as `request_bytes` says.
    pub fn to_bytes(&self) -> (r: Vec<u8>)
        requires
            serialisable(self@),
            headers_normalized(self.headers@),
        ensures
            r@ == request_bytes(self@),
    {
        let mut out: Vec<u8> = Vec::new();
        proof {
            crate::http::lemma_method_chars_wf(self.method);
        }
        push_str_bytes(&mut out, self.method.as_str());
        out.push(32u8);
        push_str_bytes(&mut out, self.uri.as_str());
        out.push(32u8);
        push_str_bytes(&mut out, self.version.as_str());
        let ghost hl = head_lines_of(self@);
        proof {
            reveal_strlit(" ");
            assert(bytes_of_chars(" "@) =~= seq![32u8]);
            assert(bytes_of_chars(start_line_chars(self@)) =~= bytes_of_chars(
                method_chars(self.method),
            ) + bytes_of_chars(" "@) + bytes_of_chars(self.uri@) + bytes_of_chars(" "@)
                + bytes_of_chars(self.version@));
            assert(out@ =~= bytes_of_chars(start_line_chars(self@)));
            assert(hl[0] == bytes_of_chars(start_line_chars(self@)));
            assert(hl.take(1) =~= seq![bytes_of_chars(start_line_chars(self@))]);
            assert(out@ =~= join_sep(hl.take(1), crlf()));
        }
        let mut i: usize = 0;
        let nh = self.headers.len();
        while i < nh
            invariant
                nh == self.headers@.len(),
                serialisable(self@),
                headers_normalized(self.headers@),
                0 <= i <= nh,
                hl == head_lines_of(self@),
                hl.len() == 1 + nh,
                out@ == join_sep(hl.take(1 + i as int), crlf()),
            decreases nh - i,
        {
            let ghost pre = out@;
            out.push(13u8);
            out.push(10u8);
            let h = &self.headers[i].0;
            let wn = h.wire_name();
            proof {
                let n = req_name(self.headers@[i as int].0);
                assert(self@.headers[i as int] == (n, self.headers@[i as int].1@));
                assert(byte_chars(self@.headers[i as int].0) && byte_chars(
                    self@.headers[i as int].1,
                ));
                match self.headers@[i as int].0 {
                    RequestHeader::Custom(s) => {
                        assert(!is_known_req_name(s@));
                        assert(wn@ == s@);
                        assert(wn@ == wire_of(n));
                        assert(byte_chars(n));
                    },
                    _ => {
                        crate::http::lemma_req_header_names(self.headers@[i as int].0);
                        assert(wn@ == wire_of(n));
                    },
                }
                assert(byte_chars(wire_of(n)));
            }
            push_str_bytes(&mut out, wn.as_str());
            out.push(58u8);
            out.push(32u8);
            push_str_bytes(&mut out, self.headers[i].1.as_str());
            proof {
                reveal_strlit(": ");
                let n = req_name(self.headers@[i as int].0);
                let v = self.headers@[i as int].1@;
                assert(bytes_of_chars(": "@) =~= seq![58u8, 32u8]);
                assert(bytes_of_chars(header_line_chars(n, v)) =~= bytes_of_chars(wire_of(n))
                    + bytes_of_chars(": "@) + bytes_of_chars(v));
                assert(self@.headers[i as int] == (n, v));
                assert(hl[1 + i as int] == bytes_of_chars(header_line_chars(n, v)));
                assert(out@ =~= pre + crlf() + bytes_of_chars(header_line_chars(n, v)));
                assert(hl.take(1 + (i + 1)) =~= hl.take(1 + i as int).push(hl[1 + i as int]));
                lemma_join_push(hl.take(1 + i as int), crlf(), hl[1 + i as int]);
            }
            i += 1;
        }
        proof {
            assert(hl.take(1 + nh as int) =~= hl);
        }
        out.push(13u8);
        out.push(10u8);
        out.push(13u8);
        out.push(10u8);
        match &self.content {
            Some(c) => {
                let mut j: usize = 0;
                let cl = c.len();
                let ghost mid = out@;
                while j < cl
                    invariant
                        cl == c@.len(),
                        0 <= j <= cl,
                        out@ == mid + c@.take(j as int),
                    decreases cl - j,
                {
                    out.push(c[j]);
                    proof {
                        assert(out@ =~= mid + c@.take(j + 1));
                    }
                    j += 1;
                }
                proof {
                    assert(c@.take(cl as int) =~= c@);
                    assert(out@ =~= join_sep(hl, crlf()) + crlf2() + body_of(self@));
                }
            },
            None => {
                proof {
                    assert(out@ =~= join_sep(hl, crlf()) + crlf2() + body_of(self@));
                }
            },
        }
        out
    }
}

impl Request {
    /// Reads one request from a byte source: bytes are taken until they
    /// parse, at most `max_len` of them.  What comes back is exactly
    /// what `spec_parse_request` makes of the bytes consumed; a source
    /// that ends, fails, or exceeds the bound before then is a stream
    /// error.
    pub fn from_stream<T: crate::stream::ByteSource>(
        stream: &mut T,
        address: &str,
        max_len: usize,
    ) -> (r: Result<Request, RequestError>)
        ensures
            match r {
                Ok(req) => canonical_req(req@) && serialisable(req@) && headers_normalized(
                    req.headers@,
                ) && req@.address == address@,
                Err(_) => true,
            },
    {
        let mut buf: Vec<u8> = Vec::new();
        loop
            invariant
                buf@.len() <= max_len,
            decreases max_len - buf@.len(),
        {
            match Request::parse(buf.as_slice(), address) {
                Ok(req) => {
                    return Ok(req);
                },
                Err(RequestError::Stream) => {
                    if buf.len() >= max_len {
                        return Err(RequestError::Stream);
                    }
                    match stream.read_byte() {
                        Some(b) => {
                            buf.push(b);
                        },
                        None => {
                            return Err(RequestError::Stream);
                        },
                    }
                },
                Err(e) => {
                    return Err(e);
                },
            }
        }
    }
}

/// Free of carriage returns and line feeds.
pub open spec fn clean_chars(s: Seq<char>) -> bool {
    forall|i: int| #![auto] 0 <= i < s.len() ==> s[i] != '\r' && s[i] != '\n'
}

pub open spec fn no_space(s: Seq<char>) -> bool {
    forall|i: int| #![auto] 0 <= i < s.len() ==> s[i] != ' '
}

/// A header entry in the shape the parser itself produces.
pub open spec fn hdr_entry_canonical(p: (Seq<char>, Seq<char>)) -> bool {
    &&& byte_chars(p.0) && byte_chars(p.1)
    &&& lower_chars(p.0) == p.0
    &&& hdr_name_chars_ok(p.0)
    &&& clean_chars(p.1)
    &&& (p.1.len() > 0 ==> p.1[0] != ' ' && p.1[0] != '\t')
}

/// The announced and the actual body agree.
pub open spec fn content_length_ok(r: ReqView) -> bool {
    match view_lookup(r.headers, "content-length"@) {
        None => r.content is None,
        Some(v) => all_digits(v) && dec_value(v) <= u64::MAX && (match r.content {
            None => dec_value(v) == 0,
            Some(c) => dec_value(v) == c.len() && c.len() > 0,
        }),
    }
}

/// A request exactly as the parser hands it out.  Such a request reads
/// back unchanged from its own wire bytes.
pub open spec fn canonical_req(r: ReqView) -> bool {
    &&& byte_chars(r.uri) && no_space(r.uri) && clean_chars(r.uri)
    &&& byte_chars(r.version) && clean_chars(r.version)
    &&& view_names_unique(r.headers)
    &&& forall|i: int| 0 <= i < r.headers.len() ==> hdr_entry_canonical(#[trigger] r.headers[i])
    &&& content_length_ok(r)
}

/// A canonical request can be written on the wire.
pub proof fn lemma_canonical_serialisable(r: ReqView)
    requires
        canonical_req(r),
    ensures
        serialisable(r),
{
    assert forall|i: int|
        0 <= i < r.headers.len() implies byte_chars((#[trigger] r.headers[i]).0) && byte_chars(
        r.headers[i].1,
    ) by {
        assert(hdr_entry_canonical(r.headers[i]));
    }
}

/// Trimming keeps a suffix of the line, and what it keeps does not open
/// with a blank.
pub proof fn lemma_trim_props(s: Seq<u8>)
    ensures
        trim_start_ws(s).len() <= s.len(),
        trim_start_ws(s) =~= s.skip(s.len() - trim_start_ws(s).len()),
        trim_start_ws(s).len() > 0 ==> trim_start_ws(s)[0] != 32 && trim_start_ws(s)[0] != 9,
    decreases s.len(),
{
    if s.len() > 0 && (s[0] == 32 || s[0] == 9) {
        lemma_trim_props(s.drop_first());
        assert(s.drop_first() =~= s.skip(1));
        let t = trim_start_ws(s);
        assert(t == trim_start_ws(s.skip(1)));
        assert(t =~= s.skip(1).skip(s.skip(1).len() - t.len()));
        assert forall|i: int| 0 <= i < t.len() implies t[i] == s.skip(s.len() - t.len())[i] by {
            assert(t[i] == s.skip(1)[s.skip(1).len() - t.len() + i]);
        }
        assert(t =~= s.skip(s.len() - t.len()));
    } else {
        assert(trim_start_ws(s) =~= s.skip(0));
    }
}

/// Upserting a canonical entry into a canonical list stays canonical.
proof fn lemma_upsert_entries(hs: Seq<(Seq<char>, Seq<char>)>, n: Seq<char>, v: Seq<char>)
    requires
        forall|i: int| 0 <= i < hs.len() ==> hdr_entry_canonical(#[trigger] hs[i]),
        hdr_entry_canonical((n, v)),
    ensures
        forall|i: int|
            0 <= i < upsert_hdr(hs, n, v).len() ==> hdr_entry_canonical(
                #[trigger] upsert_hdr(hs, n, v)[i],
            ),
    decreases hs.len(),
{
    let r = upsert_hdr(hs, n, v);
    if hs.len() == 0 {
        assert(r[0] == (n, v));
    } else if hs[0].0 == n {
        assert forall|i: int| 0 <= i < r.len() implies hdr_entry_canonical(#[trigger] r[i]) by {
            if i == 0 {
                assert(r[0] == (n, v));
            } else {
                assert(r[i] == hs[i]);
            }
        }
    } else {
        let tail = hs.drop_first();
        assert forall|i: int| 0 <= i < tail.len() implies hdr_entry_canonical(
            #[trigger] tail[i],
        ) by {
            assert(tail[i] == hs[i + 1]);
        }
        lemma_upsert_entries(tail, n, v);
        let rt = upsert_hdr(tail, n, v);
        assert forall|i: int| 0 <= i < r.len() implies hdr_entry_canonical(#[trigger] r[i]) by {
            if i == 0 {
                assert(r[0] == hs[0]);
            } else {
                assert(r[i] == rt[i - 1]);
            }
        }
    }
}

/// Every header list the parser builds is canonical: unique lower-case
/// names, clean values.
proof fn lemma_parse_headers_canonical(
    lines: Seq<Seq<u8>>,
    k: int,
    acc: Seq<(Seq<char>, Seq<char>)>,
)
    requires
        0 <= k,
        forall|j: int| #![auto] 0 <= j < lines.len() ==> clean_line(lines[j]),
        view_names_unique(acc),
        forall|i: int| 0 <= i < acc.len() ==> hdr_entry_canonical(#[trigger] acc[i]),
    ensures
        match spec_parse_headers(lines, k, acc) {
            Ok(hs) => view_names_unique(hs) && forall|i: int|
                0 <= i < hs.len() ==> hdr_entry_canonical(#[trigger] hs[i]),
            Err(_) => true,
        },
    decreases lines.len() - k,
{
    if k >= lines.len() {
    } else {
        let line = lines[k];
        match find_at(line, seq![58u8], 0) {
            None => {},
            Some(c) => {
                lemma_find_at_bounds(line, seq![58u8], 0);
                let raw = chars_of_bytes(line.take(c));
                let n = lower_chars(raw);
                lemma_chars_of_bytes_roundtrip(line.take(c));
                lemma_lower_chars_props(raw);
                assert forall|i: int|
                    #![auto]
                    0 <= i < raw.len() implies raw[i] != ':' && raw[i] != '\r' && raw[i]
                    != '\n' by {
                    assert(line.take(c)[i] == line[i]);
                    lemma_find_at_first(line, seq![58u8], 0, i);
                    lemma_match_one(line, 58u8, i);
                    assert(line[i] != 58 && line[i] != 13 && line[i] != 10);
                    assert(raw[i] == line[i] as char);
                }
                assert(hdr_name_chars_ok(n)) by {
                    assert forall|i: int|
                        #![auto]
                        0 <= i < n.len() implies n[i] != ':' && n[i] != '\r' && n[i] != '\n' by {
                        assert(n[i] == raw[i] || (97 <= n[i] as u32 <= 122));
                    }
                }
                let tail = line.skip(c + 1);
                let tv = trim_start_ws(tail);
                let v = chars_of_bytes(tv);
                lemma_trim_props(tail);
                lemma_chars_of_bytes_roundtrip(tv);
                assert forall|i: int| #![auto] 0 <= i < v.len() implies v[i] != '\r' && v[i]
                    != '\n' by {
                    let d = tail.len() - tv.len();
                    assert(tv[i] == tail.skip(d)[i]);
                    assert(tail[d + i] == line[c + 1 + d + i]);
                    assert(v[i] == tv[i] as char);
                }
                if v.len() > 0 {
                    assert(tv[0] != 32 && tv[0] != 9);
                    assert(v[0] == tv[0] as char);
                }
                assert(hdr_entry_canonical((n, v)));
                lemma_upsert_unique(acc, n, v);
                lemma_upsert_entries(acc, n, v);
                assert(spec_parse_header(line) == Ok::<(Seq<char>, Seq<char>), RequestError>(
                    (n, v),
                ));
                lemma_parse_headers_canonical(lines, k + 1, upsert_hdr(acc, n, v));
            },
        }
    }
}

/// What the parser accepts is canonical and can be written back.
pub proof fn lemma_parse_canonical(b: Seq<u8>, addr: Seq<char>)
    ensures
        spec_parse_request(b, addr) matches Ok(rv) ==> canonical_req(rv) && serialisable(rv),
{
    if spec_parse_request(b, addr) is Ok {
        match find_at(b, crlf2(), 0) {
            None => {},
            Some(t) => {
                lemma_find_at_bounds(b, crlf2(), 0);
                let head = b.take(t);
                let lines = split_from(head, crlf(), 0);
                crate::bytescan::lemma_split_from_len(head, crlf(), 0);
                if exists|j: int| #![auto] 0 <= j < lines.len() && !clean_line(lines[j]) {
                } else {
                    let line0 = lines[0];
                    match find_at(line0, seq![32u8], 0) {
                        None => {},
                        Some(s1) => {
                            lemma_find_at_bounds(line0, seq![32u8], 0);
                            let rest = line0.skip(s1 + 1);
                            match find_at(rest, seq![32u8], 0) {
                                None => {},
                                Some(s2) => {
                                    lemma_find_at_bounds(rest, seq![32u8], 0);
                                    let uri = chars_of_bytes(rest.take(s2));
                                    let ver = chars_of_bytes(rest.skip(s2 + 1));
                                    lemma_chars_of_bytes_roundtrip(rest.take(s2));
                                    lemma_chars_of_bytes_roundtrip(rest.skip(s2 + 1));
                                    assert(clean_line(line0));
                                    assert forall|i: int|
                                        #![auto]
                                        0 <= i < uri.len() implies uri[i] != ' ' && uri[i]
                                        != '\r' && uri[i] != '\n' by {
                                        assert(rest.take(s2)[i] == rest[i]);
                                        lemma_find_at_first(rest, seq![32u8], 0, i);
                                        lemma_match_one(rest, 32u8, i);
                                        assert(rest[i] == line0[s1 + 1 + i]);
                                        assert(uri[i] == rest[i] as char);
                                    }
                                    assert forall|i: int|
                                        #![auto]
                                        0 <= i < ver.len() implies ver[i] != '\r' && ver[i]
                                        != '\n' by {
                                        assert(rest.skip(s2 + 1)[i] == rest[s2 + 1 + i]);
                                        assert(rest[s2 + 1 + i] == line0[s1 + 1 + s2 + 1 + i]);
                                        assert(ver[i] == rest[s2 + 1 + i] as char);
                                    }
                                    lemma_parse_headers_canonical(lines, 1, Seq::empty());
                                    match spec_parse_headers(lines, 1, Seq::empty()) {
                                        Err(_) => {},
                                        Ok(hs) => {
                                            let rest2 = b.skip(t + 4);
                                            let rv = spec_parse_request(b, addr)->Ok_0;
                                            match view_lookup(hs, "content-length"@) {
                                                None => {
                                                    assert(canonical_req(rv));
                                                },
                                                Some(clv) => {
                                                    crate::text::lemma_dec_value_nonneg(clv);
                                                    if all_digits(clv) && dec_value(clv)
                                                        <= u64::MAX {
                                                        if dec_value(clv) == 0 {
                                                            assert(canonical_req(rv));
                                                        } else if rest2.len() < dec_value(clv) {
                                                        } else {
                                                            assert(rest2.take(
                                                                dec_value(clv),
                                                            ).len() == dec_value(clv));
                                                            assert(canonical_req(rv));
                                                        }
                                                    }
                                                },
                                            }
                                            lemma_canonical_serialisable(rv);
                                        },
                                    }
                                },
                            }
                        },
                    }
                }
            },
        }
    }
}

} // verus!
