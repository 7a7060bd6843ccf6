//! The HTTP response: data model, builder helpers, and the serialiser.
//! A response built through `with_request_compatibility` and
//! `with_generated_headers` always carries a `Content-Length` equal to
//! its body and a `Connection` header that mirrors the request's, or
//! `close` when the request named none.

use vstd::prelude::*;

use crate::http::{resp_name, status_num, status_reason, ResponseHeader, StatusCode};
use crate::request::{view_lookup, ReqView, Request};
use crate::text::{byte_chars, bytes_of_chars, dec_digits_of, lower_chars, u64_to_string};

verus! {

/// The mathematical shape of a response; headers keep insertion order.
#[verifier::ext_equal]
pub struct RespView {
    pub version: Seq<char>,
    pub status: StatusCode,
    pub headers: Seq<(Seq<char>, Seq<char>)>,
    pub body: Seq<u8>,
}

/// An HTTP response.
pub struct Response {
    pub version: String,
    pub status: StatusCode,
    pub headers: Vec<(ResponseHeader, String)>,
    pub body: Vec<u8>,
}

/// The header list as named values; response names are compared as
/// written.
pub open spec fn resp_headers_view(hs: Seq<(ResponseHeader, String)>) -> Seq<
    (Seq<char>, Seq<char>),
> {
    hs.map(|_i: int, p: (ResponseHeader, String)| (resp_name(p.0), p.1@))
}

impl View for Response {
    type V = RespView;

    open spec fn view(&self) -> RespView {
        RespView {
            version: self.version@,
            status: self.status,
            headers: resp_headers_view(self.headers@),
            body: self.body@,
        }
    }
}

/// The list after writing `v` under `name`, the first entry with that
/// name replaced in place, or a new entry appended.
pub open spec fn resp_upsert(
    hs: Seq<(Seq<char>, Seq<char>)>,
    name: Seq<char>,
    v: Seq<char>,
) -> Seq<(Seq<char>, Seq<char>)> {
    crate::request::upsert_hdr(hs, name, v)
}

/// Writes `v` under `h`: replaces the first entry with the same name in
/// place, or appends.
pub fn set_resp_header(headers: &mut Vec<(ResponseHeader, String)>, h: ResponseHeader, v: String)
    ensures
        resp_headers_view(final(headers)@) == resp_upsert(
            resp_headers_view(old(headers)@),
            resp_name(h),
            v@,
        ),
{
    let name = h.wire_name();
    let mut i: usize = 0;
    while i < headers.len()
        invariant
            headers@ == old(headers)@,
            0 <= i <= headers@.len(),
            name@ == resp_name(h),
            forall|k: int| 0 <= k < i ==> resp_name((#[trigger] headers@[k]).0) != resp_name(h),
        decreases headers@.len() - i,
    {
        let ename = headers[i].0.wire_name();
        if ename == name {
            let ghost old_hs = headers@;
            headers[i] = (h, v);
            proof {
                let hv = resp_headers_view(old_hs);
                assert forall|k: int| 0 <= k < i implies (#[trigger] hv[k]).0 != resp_name(h) by {
                    assert(hv[k].0 == resp_name(old_hs[k].0));
                }
                assert(hv[i as int].0 == resp_name(h));
                crate::request::lemma_upsert_found(hv, resp_name(h), v@, i as int);
                assert(resp_headers_view(headers@) =~= hv.update(i as int, (resp_name(h), v@)));
            }
            return ;
        }
        i += 1;
    }
    headers.push((h, v));
    proof {
        let hv = resp_headers_view(old(headers)@);
        assert forall|k: int| 0 <= k < hv.len() implies (#[trigger] hv[k]).0 != resp_name(h) by {
            assert(hv[k].0 == resp_name(old(headers)@[k].0));
        }
        crate::request::lemma_upsert_absent(hv, resp_name(h), v@);
        assert(resp_headers_view(headers@) =~= hv.push((resp_name(h), v@)));
    }
}

/// Reads the value stored under `name`, the latest entry winning.
pub fn get_resp_header(headers: &Vec<(ResponseHeader, String)>, name: &ResponseHeader) -> (r:
    Option<String>)
    ensures
        match r {
            Some(v) => view_lookup(resp_headers_view(headers@), resp_name(*name)) == Some(v@),
            None => view_lookup(resp_headers_view(headers@), resp_name(*name)) is None,
        },
{
    let n = name.wire_name();
    let ghost hv = resp_headers_view(headers@);
    let mut i: usize = 0;
    proof {
        assert(hv.skip(0) =~= hv);
    }
    while i < headers.len()
        invariant
            0 <= i <= headers@.len(),
            hv == resp_headers_view(headers@),
            n@ == resp_name(*name),
            view_lookup(hv, resp_name(*name)) == view_lookup(hv.skip(i as int), resp_name(*name)),
        decreases headers@.len() - i,
    {
        let ename = headers[i].0.wire_name();
        proof {
            assert(hv.skip(i as int)[0] == hv[i as int]);
            assert(hv[i as int].0 == resp_name(headers@[i as int].0));
            assert(hv.skip(i as int).drop_first() =~= hv.skip(i + 1));
        }
        if ename == n {
            return Some(headers[i].1.clone());
        }
        i += 1;
    }
    proof {
        assert(hv.skip(headers@.len() as int) =~= Seq::<(Seq<char>, Seq<char>)>::empty());
    }
    None
}

/// The request's wish for the connection after this exchange: the value
/// of its `Connection` header, or `close` when it names none.
pub open spec fn connection_wish(r: ReqView) -> Seq<char> {
    match view_lookup(r.headers, "connection"@) {
        Some(v) => v,
        None => "close"@,
    }
}

/// Whether a request asks to keep the connection open.
pub open spec fn spec_keep_alive(r: ReqView) -> bool {
    lower_chars(connection_wish(r)) == "keep-alive"@
}

impl Response {
    /// A fresh response with the given status and nothing else.
    pub fn new(status: StatusCode) -> (r: Response)
        ensures
            r@.status == status,
            r@.version == "1.1"@,
            r@.headers == Seq::<(Seq<char>, Seq<char>)>::empty(),
            r@.body == Seq::<u8>::empty(),
    {
        let r = Response {
            version: String::from_str("1.1"),
            status: status,
            headers: Vec::new(),
            body: Vec::new(),
        };
        proof {
            assert(resp_headers_view(r.headers@) =~= Seq::<(Seq<char>, Seq<char>)>::empty());
        }
        r
    }

    /// The same response carrying the given body.
    pub fn with_bytes(self, body: Vec<u8>) -> (r: Response)
        ensures
            r@ == (RespView { body: body@, ..self@ }),
    {
        Response { body: body, ..self }
    }

    /// The same response with `v` written under `h`.
    pub fn with_header(self, h: ResponseHeader, v: String) -> (r: Response)
        ensures
            r@ == (RespView { headers: resp_upsert(self@.headers, resp_name(h), v@), ..self@ }),
    {
        let mut headers = self.headers;
        let ghost pre = resp_headers_view(headers@);
        set_resp_header(&mut headers, h, v);
        let r = Response { headers: headers, ..self };
        proof {
            assert(r@ =~= (RespView { headers: resp_upsert(pre, resp_name(h), v@), ..self@ }));
        }
        r
    }

    /// Mirrors the request's `Connection` wish into the response, as the
    /// keep-alive lifecycle asks: the request's own value, or `close`
    /// when it named none.
    pub fn with_request_compatibility(self, request: &Request) -> (r: Response)
        ensures
            r@ == (RespView {
                headers: resp_upsert(self@.headers, "Connection"@, connection_wish(request@)),
                ..self@
            }),
    {
        let wish = match request.header(&crate::http::RequestHeader::Connection) {
            Some(v) => v,
            None => String::from_str("close"),
        };
        self.with_header(ResponseHeader::Connection, wish)
    }

    /// Fills the headers the framework owes every response: the exact
    /// `Content-Length`, a default `Content-Type` of `text/html`, the
    /// `Server` name, the given `Date`, and `close` as the `Connection`
    /// when none was chosen yet.
    pub fn with_generated_headers(self, date: &str) -> (r: Response)
        ensures
            view_lookup(r@.headers, "Content-Length"@) == Some(dec_digits_of(self@.body.len())),
            view_lookup(r@.headers, "Content-Type"@) == (match view_lookup(
                self@.headers,
                "Content-Type"@,
            ) {
                Some(v) => Some(v),
                None => Some("text/html"@),
            }),
            view_lookup(r@.headers, "Connection"@) == (match view_lookup(
                self@.headers,
                "Connection"@,
            ) {
                Some(v) => Some(v),
                None => Some("close"@),
            }),
            view_lookup(r@.headers, "Server"@) == Some("humphrey"@),
            view_lookup(r@.headers, "Date"@) == Some(date@),
            forall|q: Seq<char>|
                q != "Content-Length"@ && q != "Content-Type"@ && q != "Connection"@ && q
                    != "Server"@ && q != "Date"@ ==> #[trigger] view_lookup(r@.headers, q)
                    == view_lookup(self@.headers, q),
            r@.status == self@.status,
            r@.version == self@.version,
            r@.body == self@.body,
    {
        let ghost h0 = self@.headers;
        let mut r = self;
        let has_ct = get_resp_header(&r.headers, &ResponseHeader::ContentType).is_some();
        if !has_ct {
            r = r.with_header(ResponseHeader::ContentType, String::from_str("text/html"));
        }
        let ghost h1 = r@.headers;
        let has_conn = get_resp_header(&r.headers, &ResponseHeader::Connection).is_some();
        if !has_conn {
            r = r.with_header(ResponseHeader::Connection, String::from_str("close"));
        }
        let ghost h2 = r@.headers;
        let blen = r.body.len();
        let cl = u64_to_string(blen as u64);
        r = r.with_header(ResponseHeader::ContentLength, cl);
        let ghost h3 = r@.headers;
        r = r.with_header(ResponseHeader::Server, String::from_str("humphrey"));
        let ghost h4 = r@.headers;
        r = r.with_header(ResponseHeader::Date, String::from_str(date));
        let ghost h5 = r@.headers;
        proof {
            reveal_strlit("Content-Length");
            reveal_strlit("Content-Type");
            reveal_strlit("Connection");
            reveal_strlit("Server");
            reveal_strlit("Date");
            assert("Content-Length"@.len() == 14);
            assert("Content-Type"@.len() == 12);
            assert("Connection"@.len() == 10);
            assert("Server"@.len() == 6);
            assert("Date"@.len() == 4);
            lemma_upsert_lookup(h4, "Date"@, date@, "Date"@);
            lemma_upsert_lookup(h4, "Date"@, date@, "Server"@);
            lemma_upsert_lookup(h4, "Date"@, date@, "Content-Length"@);
            lemma_upsert_lookup(h4, "Date"@, date@, "Content-Type"@);
            lemma_upsert_lookup(h4, "Date"@, date@, "Connection"@);
            lemma_upsert_lookup(h3, "Server"@, "humphrey"@, "Server"@);
            lemma_upsert_lookup(h3, "Server"@, "humphrey"@, "Content-Length"@);
            lemma_upsert_lookup(h3, "Server"@, "humphrey"@, "Content-Type"@);
            lemma_upsert_lookup(h3, "Server"@, "humphrey"@, "Connection"@);
            lemma_upsert_lookup(h2, "Content-Length"@, dec_digits_of(blen as nat), "Content-Length"@);
            lemma_upsert_lookup(h2, "Content-Length"@, dec_digits_of(blen as nat), "Content-Type"@);
            lemma_upsert_lookup(h2, "Content-Length"@, dec_digits_of(blen as nat), "Connection"@);
            if !has_ct {
                lemma_upsert_lookup(h0, "Content-Type"@, "text/html"@, "Content-Type"@);
                lemma_upsert_lookup(h0, "Content-Type"@, "text/html"@, "Connection"@);
            }
            if !has_conn {
                lemma_upsert_lookup(h1, "Connection"@, "close"@, "Connection"@);
                lemma_upsert_lookup(h1, "Connection"@, "close"@, "Content-Type"@);
            }
            assert forall|q: Seq<char>|
                q != "Content-Length"@ && q != "Content-Type"@ && q != "Connection"@ && q
                    != "Server"@ && q != "Date"@ implies #[trigger] view_lookup(h5, q)
                == view_lookup(h0, q) by {
                lemma_upsert_lookup(h4, "Date"@, date@, q);
                lemma_upsert_lookup(h3, "Server"@, "humphrey"@, q);
                lemma_upsert_lookup(h2, "Content-Length"@, dec_digits_of(blen as nat), q);
                if !has_conn {
                    lemma_upsert_lookup(h1, "Connection"@, "close"@, q);
                }
                if !has_ct {
                    lemma_upsert_lookup(h0, "Content-Type"@, "text/html"@, q);
                }
            }
        }
        r
    }
}

/// Looking a name up after an upsert: the written name reads the new
/// value, any other name is untouched.
pub proof fn lemma_upsert_lookup(
    hs: Seq<(Seq<char>, Seq<char>)>,
    name: Seq<char>,
    v: Seq<char>,
    q: Seq<char>,
)
    ensures
        view_lookup(crate::request::upsert_hdr(hs, name, v), q) == (if q == name {
            Some(v)
        } else {
            view_lookup(hs, q)
        }),
    decreases hs.len(),
{
    let r = crate::request::upsert_hdr(hs, name, v);
    if hs.len() == 0 {
        assert(r =~= seq![(name, v)]);
        assert(r.drop_first() =~= Seq::<(Seq<char>, Seq<char>)>::empty());
        assert(view_lookup(r.drop_first(), q) == None::<Seq<char>>);
    } else if hs[0].0 == name {
        let tail = hs.drop_first();
        assert(r =~= seq![(name, v)] + tail);
        assert(r[0] == (name, v));
        assert(r.drop_first() =~= tail);
    } else {
        let tail = hs.drop_first();
        let rt = crate::request::upsert_hdr(tail, name, v);
        lemma_upsert_lookup(tail, name, v, q);
        assert(r =~= seq![hs[0]] + rt);
        assert(r[0] == hs[0]);
        assert(r.drop_first() =~= rt);
    }
}

/// The status line a response is written with.
pub open spec fn status_line_chars(v: RespView) -> Seq<char> {
    "HTTP/"@ + v.version + " "@ + dec_digits_of(status_num(v.status) as nat) + " "@
        + status_reason(v.status)
}

/// The head lines a response is written as: its status line, then each
/// header as `Name: value`.
pub open spec fn resp_head_lines(v: RespView) -> Seq<Seq<u8>> {
    seq![bytes_of_chars(status_line_chars(v))] + v.headers.map(
        |_i: int, p: (Seq<char>, Seq<char>)| bytes_of_chars(p.0 + ": "@ + p.1),
    )
}

/// The bytes a response is written as: head lines joined by CRLF, a
/// blank line, and the body.
pub open spec fn response_bytes(v: RespView) -> Seq<u8> {
    crate::bytescan::join_sep(resp_head_lines(v), crate::request::crlf()) + crate::request::crlf2()
        + v.body
}

/// Every textual field fits one byte per character.
pub open spec fn resp_serialisable(v: RespView) -> bool {
    &&& byte_chars(v.version)
    &&& forall|i: int|
        0 <= i < v.headers.len() ==> byte_chars((#[trigger] v.headers[i]).0) && byte_chars(
            v.headers[i].1,
        )
}

/// The reason phrase of every status fits on the wire.
proof fn lemma_status_reason_wf(s: StatusCode)
    ensures
        byte_chars(status_reason(s)),
{
    reveal_strlit("OK");
    reveal_strlit("Moved Permanently");
    reveal_strlit("Found");
    reveal_strlit("Bad Request");
    reveal_strlit("Forbidden");
    reveal_strlit("Not Found");
    reveal_strlit("Request Timeout");
    reveal_strlit("Internal Server Error");
    reveal_strlit("Bad Gateway");
}

impl Response {
    /// Writes the response on the wire, exactly as `response_bytes`
    /// says.
    pub fn to_bytes(&self) -> (r: Vec<u8>)
        requires
            resp_serialisable(self@),
        ensures
            r@ == response_bytes(self@),
    {
        let mut out: Vec<u8> = Vec::new();
        proof {
            reveal_strlit("HTTP/");
            reveal_strlit(" ");
            lemma_status_reason_wf(self.status);
            crate::text::lemma_dec_digits_of_all_digits(status_num(self.status) as nat);
        }
        crate::request::push_str_bytes(&mut out, "HTTP/");
        crate::request::push_str_bytes(&mut out, self.version.as_str());
        out.push(32u8);
        let code = self.status.code();
        let digits = u64_to_string(code as u64);
        crate::request::push_str_bytes(&mut out, digits.as_str());
        out.push(32u8);
        crate::request::push_str_bytes(&mut out, self.status.reason());
        let ghost hl = resp_head_lines(self@);
        proof {
            assert(bytes_of_chars(" "@) =~= seq![32u8]);
            assert(bytes_of_chars(status_line_chars(self@)) =~= bytes_of_chars("HTTP/"@)
                + bytes_of_chars(self.version@) + bytes_of_chars(" "@) + bytes_of_chars(
                dec_digits_of(status_num(self.status) as nat),
            ) + bytes_of_chars(" "@) + bytes_of_chars(status_reason(self.status)));
            assert(out@ =~= bytes_of_chars(status_line_chars(self@)));
            assert(hl[0] == bytes_of_chars(status_line_chars(self@)));
            assert(hl.take(1) =~= seq![bytes_of_chars(status_line_chars(self@))]);
            assert(out@ =~= crate::bytescan::join_sep(hl.take(1), crate::request::crlf()));
        }
        let mut i: usize = 0;
        let nh = self.headers.len();
        while i < nh
            invariant
                nh == self.headers@.len(),
                resp_serialisable(self@),
                0 <= i <= nh,
                hl == resp_head_lines(self@),
                hl.len() == 1 + nh,
                out@ == crate::bytescan::join_sep(hl.take(1 + i as int), crate::request::crlf()),
            decreases nh - i,
        {
            let ghost pre = out@;
            out.push(13u8);
            out.push(10u8);
            let wn = self.headers[i].0.wire_name();
            proof {
                let n = resp_name(self.headers@[i as int].0);
                let v = self.headers@[i as int].1@;
                assert(self@.headers[i as int] == (n, v));
                assert(byte_chars(self@.headers[i as int].0) && byte_chars(
                    self@.headers[i as int].1,
                ));
            }
            crate::request::push_str_bytes(&mut out, wn.as_str());
            out.push(58u8);
            out.push(32u8);
            crate::request::push_str_bytes(&mut out, self.headers[i].1.as_str());
            proof {
                reveal_strlit(": ");
                let n = resp_name(self.headers@[i as int].0);
                let v = self.headers@[i as int].1@;
                assert(bytes_of_chars(": "@) =~= seq![58u8, 32u8]);
                assert(bytes_of_chars(n + ": "@ + v) =~= bytes_of_chars(n) + bytes_of_chars(": "@)
                    + bytes_of_chars(v));
                assert(hl[1 + i as int] == bytes_of_chars(n + ": "@ + v));
                assert(out@ =~= pre + crate::request::crlf() + bytes_of_chars(n + ": "@ + v));
                assert(hl.take(1 + (i + 1)) =~= hl.take(1 + i as int).push(hl[1 + i as int]));
                crate::request::lemma_join_push(
                    hl.take(1 + i as int),
                    crate::request::crlf(),
                    hl[1 + i as int],
                );
            }
            i += 1;
        }
        proof {
            assert(hl.take(1 + nh as int) =~= hl);
        }
        out.push(13u8);
        out.push(10u8);
        out.push(13u8);
        out.push(10u8);
        let mut j: usize = 0;
        let cl = self.body.len();
        let ghost mid = out@;
        while j < cl
            invariant
                cl == self.body@.len(),
                0 <= j <= cl,
                out@ == mid + self.body@.take(j as int),
            decreases cl - j,
        {
            out.push(self.body[j]);
            proof {
                assert(out@ =~= mid + self.body@.take(j + 1));
            }
            j += 1;
        }
        proof {
            assert(self.body@.take(cl as int) =~= self.body@);
            assert(out@ =~= response_bytes(self@));
        }
        out
    }
}

/// Writes the response on the wire if all its text fits in bytes, and
/// says so when it does not.
impl Response {
    pub fn try_to_bytes(&self) -> (r: Option<Vec<u8>>)
        ensures
            match r {
                Some(b) => resp_serialisable(self@) && b@ == response_bytes(self@),
                None => !resp_serialisable(self@),
            },
    {
        if !crate::text::str_all_bytes(self.version.as_str()) {
            return None;
        }
        let mut i: usize = 0;
        while i < self.headers.len()
            invariant
                0 <= i <= self.headers@.len(),
                forall|k: int|
                    0 <= k < i ==> byte_chars((#[trigger] self@.headers[k]).0) && byte_chars(
                        self@.headers[k].1,
                    ),
            decreases self.headers@.len() - i,
        {
            let wn = self.headers[i].0.wire_name();
            proof {
                assert(self@.headers[i as int] == (
                    resp_name(self.headers@[i as int].0),
                    self.headers@[i as int].1@,
                ));
            }
            if !crate::text::str_all_bytes(wn.as_str()) {
                proof {
                    assert(!byte_chars(self@.headers[i as int].0));
                }
                return None;
            }
            if !crate::text::str_all_bytes(self.headers[i].1.as_str()) {
                proof {
                    assert(!byte_chars(self@.headers[i as int].1));
                }
                return None;
            }
            i += 1;
        }
        Some(self.to_bytes())
    }
}

/// The keep-alive law: a response whose `Connection` header mirrors the
/// request's wish answers `keep-alive` exactly on keep-alive requests
/// and `close` otherwise, read without case.  A request whose wish is
/// some third word — say `upgrade` — mirrors that word instead, so it
/// stands outside this law.
pub proof fn lemma_connection_follows_keep_alive(req: ReqView, resp: RespView)
    requires
        view_lookup(resp.headers, "Connection"@) == Some(connection_wish(req)),
        match view_lookup(req.headers, "connection"@) {
            Some(v) => lower_chars(v) == "keep-alive"@ || lower_chars(v) == "close"@,
            None => true,
        },
    ensures
        spec_keep_alive(req) ==> lower_chars(view_lookup(resp.headers, "Connection"@)->Some_0)
            == "keep-alive"@,
        !spec_keep_alive(req) ==> lower_chars(view_lookup(resp.headers, "Connection"@)->Some_0)
            == "close"@,
{
    reveal_strlit("close");
    reveal_strlit("keep-alive");
    assert("close"@.len() == 5);
    assert("keep-alive"@.len() == 10);
    match view_lookup(req.headers, "connection"@) {
        Some(v) => {},
        None => {
            assert(connection_wish(req) == "close"@);
            crate::text::lemma_lower_chars_props("close"@);
            assert(lower_chars("close"@) =~= "close"@) by {
                assert forall|i: int| 0 <= i < 5 implies #[trigger] lower_chars("close"@)[i]
                    == "close"@[i] by {
                    assert(lower_chars("close"@)[i] == crate::text::lower_char("close"@[i]));
                }
            }
        },
    }
}

} // verus!
