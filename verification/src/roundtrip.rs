//! The codec is closed under its own output: a canonical request —
//! the shape the parser itself produces — reads back unchanged from the
//! very bytes it is written as, so writing what was parsed gives those
//! same bytes again.

use vstd::prelude::*;

use crate::bytescan::{
    find_at, join_sep, lemma_find_at_exact, lemma_find_at_first, lemma_find_at_none,
    lemma_find_shift, lemma_match_one, lemma_split_shift, match_at, split_from,
};
use crate::http::{
    hdr_name_chars_ok, is_known_req_name, lemma_method_chars_wf, lemma_method_roundtrip,
    lemma_req_header_names, method_chars, req_wire_name, spec_req_header_of, RequestHeader,
};
use crate::request::{
    body_of, canonical_req, clean_chars, clean_line, content_length_ok, crlf, crlf2,
    hdr_entry_canonical, head_lines_of, header_line_chars, headers_view, name_in, no_space,
    spec_parse_header, spec_parse_headers, spec_parse_request, spec_parse_start, start_line_chars,
    trim_start_ws, upsert_hdr, view_lookup, view_names_unique, wire_of, ReqView, Request,
    RequestError,
};
use crate::text::{
    all_digits, byte_chars, bytes_of_chars, chars_of_bytes, dec_value, lemma_byte_chars_cast,
    lemma_bytes_of_chars_roundtrip, lemma_dec_value_nonneg, lower_chars,
};

verus! {

/// A line fit for a request head: non-empty and free of carriage
/// returns and line feeds.
pub open spec fn line_ok(l: Seq<u8>) -> bool {
    l.len() > 0 && clean_line(l)
}

pub open spec fn lines_ok(ls: Seq<Seq<u8>>) -> bool {
    forall|i: int| 0 <= i < ls.len() ==> line_ok(#[trigger] ls[i])
}

/// The bytes of clean one-byte characters hold no carriage return, line
/// feed, space, or colon where the characters hold none.
proof fn lemma_bytes_avoid(s: Seq<char>)
    requires
        byte_chars(s),
    ensures
        forall|i: int|
            #![auto]
            0 <= i < s.len() ==> (bytes_of_chars(s)[i] == 13 <==> s[i] == '\r') && (
            bytes_of_chars(s)[i] == 10 <==> s[i] == '\n') && (bytes_of_chars(s)[i] == 32 <==> s[i]
                == ' ') && (bytes_of_chars(s)[i] == 58 <==> s[i] == ':') && (bytes_of_chars(s)[i]
                == 9 <==> s[i] == '\t'),
{
    lemma_byte_chars_cast(s);
    assert forall|i: int|
        #![auto]
        0 <= i < s.len() implies (bytes_of_chars(s)[i] == 13 <==> s[i] == '\r') && (
    bytes_of_chars(s)[i] == 10 <==> s[i] == '\n') && (bytes_of_chars(s)[i] == 32 <==> s[i] == ' ')
        && (bytes_of_chars(s)[i] == 58 <==> s[i] == ':') && (bytes_of_chars(s)[i] == 9 <==> s[i]
        == '\t') by {
        assert(bytes_of_chars(s)[i] == s[i] as u8);
        assert(((s[i] as u8) as u32) == s[i] as u32);
        vstd::utf8::char_u32_cast(s[i], s[i] as u32);
        vstd::utf8::char_u32_cast('\r', '\r' as u32);
        vstd::utf8::char_u32_cast('\n', '\n' as u32);
        vstd::utf8::char_u32_cast(' ', ' ' as u32);
        vstd::utf8::char_u32_cast(':', ':' as u32);
        vstd::utf8::char_u32_cast('\t', '\t' as u32);
    }
}

/// In `join ++ CRLFCRLF ++ body`, the terminator is first found exactly
/// after the joined lines.
proof fn lemma_find_terminator(lines: Seq<Seq<u8>>, body: Seq<u8>)
    requires
        lines.len() >= 1,
        lines_ok(lines),
    ensures
        find_at(join_sep(lines, crlf()) + crlf2() + body, crlf2(), 0) == Some(
            join_sep(lines, crlf()).len() as int,
        ),
    decreases lines.len(),
{
    let join = join_sep(lines, crlf());
    let full = join + crlf2() + body;
    if lines.len() == 1 {
        let l0 = lines[0];
        assert(join == l0);
        assert(full =~= l0 + crlf2() + body);
        assert forall|j: int| 0 <= j < l0.len() implies !match_at(full, crlf2(), j) by {
            if match_at(full, crlf2(), j) {
                assert(full.subrange(j, j + 4)[0] == full[j]);
                assert(full[j] == l0[j]);
            }
        }
        assert(full.subrange(l0.len() as int, l0.len() as int + 4) =~= crlf2());
        assert(match_at(full, crlf2(), l0.len() as int));
        lemma_find_at_exact(full, crlf2(), 0, l0.len() as int);
    } else {
        let l0 = lines[0];
        let rest = lines.drop_first();
        assert forall|i: int| 0 <= i < rest.len() implies line_ok(#[trigger] rest[i]) by {
            assert(rest[i] == lines[i + 1]);
        }
        let jr = join_sep(rest, crlf());
        assert(join == l0 + crlf() + jr);
        let a = l0 + crlf();
        let tailfull = jr + crlf2() + body;
        assert(full =~= a + tailfull);
        lemma_find_terminator(rest, body);
        lemma_find_shift(a, tailfull, crlf2(), 0);
        assert(find_at(a + tailfull, crlf2(), a.len() as int) == Some(a.len() as int + jr.len() as int));
        let target = a.len() + jr.len();
        assert(join.len() == target);
        // the first byte of the joined rest is a line byte, not CR
        assert(jr[0] == rest[0][0]) by {
            if rest.len() == 1 {
            } else {
                assert(jr == rest[0] + crlf() + join_sep(rest.drop_first(), crlf()));
            }
            assert(rest[0].len() > 0);
        }
        assert forall|j: int| 0 <= j < a.len() implies !match_at(full, crlf2(), j) by {
            if match_at(full, crlf2(), j) {
                if j < l0.len() {
                    assert(full.subrange(j, j + 4)[0] == full[j]);
                    assert(full[j] == l0[j]);
                } else if j == l0.len() {
                    assert(full.subrange(j, j + 4)[2] == full[j + 2]);
                    assert(full[j + 2] == tailfull[0]);
                    assert(tailfull[0] == jr[0]);
                    assert(rest[0][0] != 13);
                } else {
                    assert(full.subrange(j, j + 4)[0] == full[j]);
                    assert(full[j] == a[j]);
                    assert(a[j] == 10);
                }
            }
        }
        assert forall|j: int| a.len() <= j < target implies !match_at(full, crlf2(), j) by {
            lemma_find_at_first(full, crlf2(), a.len() as int, j);
        }
        assert(match_at(full, crlf2(), target as int)) by {
            crate::bytescan::lemma_find_at_bounds(full, crlf2(), a.len() as int);
        }
        lemma_find_at_exact(full, crlf2(), 0, target as int);
    }
}

/// Splitting the joined lines gives the lines back.
proof fn lemma_split_join(lines: Seq<Seq<u8>>)
    requires
        lines.len() >= 1,
        lines_ok(lines),
    ensures
        split_from(join_sep(lines, crlf()), crlf(), 0) == lines,
    decreases lines.len(),
{
    let join = join_sep(lines, crlf());
    if lines.len() == 1 {
        let l0 = lines[0];
        assert(join == l0);
        assert forall|j: int| 0 <= j implies !match_at(join, crlf(), j) by {
            if match_at(join, crlf(), j) {
                assert(join.subrange(j, j + 2)[0] == join[j]);
                assert(join[j] == l0[j]);
            }
        }
        lemma_find_at_none(join, crlf(), 0);
        assert(join.subrange(0, join.len() as int) =~= l0);
        assert(split_from(join, crlf(), 0) =~= lines);
    } else {
        let l0 = lines[0];
        let rest = lines.drop_first();
        assert forall|i: int| 0 <= i < rest.len() implies line_ok(#[trigger] rest[i]) by {
            assert(rest[i] == lines[i + 1]);
        }
        let jr = join_sep(rest, crlf());
        assert(join == l0 + crlf() + jr);
        let a = l0 + crlf();
        assert(join =~= a + jr);
        assert forall|j: int| 0 <= j < l0.len() implies !match_at(join, crlf(), j) by {
            if match_at(join, crlf(), j) {
                assert(join.subrange(j, j + 2)[0] == join[j]);
                assert(join[j] == l0[j]);
            }
        }
        assert(join.subrange(l0.len() as int, l0.len() as int + 2) =~= crlf());
        assert(match_at(join, crlf(), l0.len() as int));
        lemma_find_at_exact(join, crlf(), 0, l0.len() as int);
        assert(join.subrange(0, l0.len() as int) =~= l0);
        lemma_split_shift(a, jr, crlf(), 0);
        lemma_split_join(rest);
        assert(split_from(join, crlf(), 0) =~= lines);
    }
}

/// The wire form of a canonical lower-case name is clean, one byte per
/// character, and lower-cases back to the name.
proof fn lemma_wire_of_ok(n: Seq<char>)
    requires
        lower_chars(n) == n,
        hdr_name_chars_ok(n),
        byte_chars(n),
    ensures
        hdr_name_chars_ok(wire_of(n)),
        byte_chars(wire_of(n)),
        lower_chars(wire_of(n)) == n,
{
    if is_known_req_name(n) {
        reveal_strlit("host");
        reveal_strlit("connection");
        reveal_strlit("content-length");
        reveal_strlit("content-type");
        reveal_strlit("upgrade");
        reveal_strlit("user-agent");
        reveal_strlit("accept");
        reveal_strlit("accept-encoding");
        reveal_strlit("accept-language");
        reveal_strlit("sec-websocket-key");
        reveal_strlit("sec-websocket-version");
        assert("host"@.len() == 4);
        assert("connection"@.len() == 10);
        assert("content-length"@.len() == 14);
        assert("content-type"@.len() == 12);
        assert("upgrade"@.len() == 7);
        assert("user-agent"@.len() == 10);
        assert("accept"@.len() == 6);
        assert("accept-encoding"@.len() == 15);
        assert("accept-language"@.len() == 15);
        assert("sec-websocket-key"@.len() == 17);
        assert("sec-websocket-version"@.len() == 21);
        assert("connection"@[0] == 'c' && "user-agent"@[0] == 'u');
        assert("accept-encoding"@[7] == 'e' && "accept-language"@[7] == 'l');
        if n == "host"@ {
            lemma_req_header_names(RequestHeader::Host);
        } else if n == "connection"@ {
            lemma_req_header_names(RequestHeader::Connection);
        } else if n == "content-length"@ {
            lemma_req_header_names(RequestHeader::ContentLength);
        } else if n == "content-type"@ {
            lemma_req_header_names(RequestHeader::ContentType);
        } else if n == "upgrade"@ {
            lemma_req_header_names(RequestHeader::Upgrade);
        } else if n == "user-agent"@ {
            lemma_req_header_names(RequestHeader::UserAgent);
        } else if n == "accept"@ {
            lemma_req_header_names(RequestHeader::Accept);
        } else if n == "accept-encoding"@ {
            lemma_req_header_names(RequestHeader::AcceptEncoding);
        } else if n == "accept-language"@ {
            lemma_req_header_names(RequestHeader::AcceptLanguage);
        } else if n == "sec-websocket-key"@ {
            lemma_req_header_names(RequestHeader::SecWebSocketKey);
        } else {
            lemma_req_header_names(RequestHeader::SecWebSocketVersion);
        }
        crate::text::lemma_lower_chars_props(wire_of(n));
    }
}

/// The bytes one header entry is written as.
pub open spec fn hdr_line_bytes(n: Seq<char>, v: Seq<char>) -> Seq<u8> {
    bytes_of_chars(header_line_chars(n, v))
}

/// Reading a written header line gives the entry back.
proof fn lemma_parse_header_line(n: Seq<char>, v: Seq<char>)
    requires
        hdr_entry_canonical((n, v)),
    ensures
        spec_parse_header(hdr_line_bytes(n, v)) == Ok::<(Seq<char>, Seq<char>), RequestError>(
            (n, v),
        ),
{
    reveal_strlit(": ");
    assert(": "@.len() == 2 && ": "@[0] == ':' && ": "@[1] == ' ');
    lemma_wire_of_ok(n);
    let w = wire_of(n);
    let bw = bytes_of_chars(w);
    let bv = bytes_of_chars(v);
    let line = hdr_line_bytes(n, v);
    assert(line =~= bw + seq![58u8, 32u8] + bv) by {
        assert(bytes_of_chars(": "@) =~= seq![58u8, 32u8]);
        assert(bytes_of_chars(w + ": "@ + v) =~= bytes_of_chars(w) + bytes_of_chars(": "@)
            + bytes_of_chars(v));
    }
    lemma_bytes_avoid(w);
    lemma_bytes_avoid(v);
    assert forall|j: int| 0 <= j < bw.len() implies !match_at(line, seq![58u8], j) by {
        lemma_match_one(line, 58u8, j);
        assert(line[j] == bw[j]);
    }
    assert(line[bw.len() as int] == 58);
    lemma_match_one(line, 58u8, bw.len() as int);
    lemma_find_at_exact(line, seq![58u8], 0, bw.len() as int);
    assert(line.take(bw.len() as int) =~= bw);
    lemma_bytes_of_chars_roundtrip(w);
    assert(chars_of_bytes(line.take(bw.len() as int)) == w);
    assert(lower_chars(chars_of_bytes(line.take(bw.len() as int))) == n);
    let tail = line.skip(bw.len() as int + 1);
    assert(tail =~= seq![32u8] + bv);
    assert(tail[0] == 32);
    assert(tail.drop_first() =~= bv);
    assert(trim_start_ws(tail) == trim_start_ws(bv));
    assert(trim_start_ws(bv) == bv) by {
        if bv.len() > 0 {
            assert(bv[0] != 32 && bv[0] != 9);
        }
    }
    lemma_bytes_of_chars_roundtrip(v);
    assert(chars_of_bytes(trim_start_ws(tail)) == v);
}

/// Reading the written header lines, in order, rebuilds the header list.
proof fn lemma_parse_headers_fold(
    hl: Seq<Seq<u8>>,
    hs: Seq<(Seq<char>, Seq<char>)>,
    k: int,
    acc: Seq<(Seq<char>, Seq<char>)>,
)
    requires
        1 <= k,
        hl.len() - k == hs.len(),
        forall|j: int|
            k <= j < hl.len() ==> #[trigger] hl[j] == hdr_line_bytes(hs[j - k].0, hs[j - k].1),
        forall|i: int| 0 <= i < hs.len() ==> hdr_entry_canonical(#[trigger] hs[i]),
        view_names_unique(hs),
        forall|i: int| 0 <= i < hs.len() ==> !name_in(acc, (#[trigger] hs[i]).0),
    ensures
        spec_parse_headers(hl, k, acc) == Ok::<Seq<(Seq<char>, Seq<char>)>, RequestError>(
            acc + hs,
        ),
    decreases hs.len(),
{
    if hs.len() == 0 {
        assert(acc + hs =~= acc);
    } else {
        let (n, v) = (hs[0].0, hs[0].1);
        assert(hl[k] == hdr_line_bytes(n, v));
        assert(hdr_entry_canonical(hs[0]));
        lemma_parse_header_line(n, v);
        assert(!name_in(acc, n));
        assert forall|q: int| 0 <= q < acc.len() implies (#[trigger] acc[q]).0 != n by {
            if acc[q].0 == n {
                assert(name_in(acc, n));
            }
        }
        crate::request::lemma_upsert_absent(acc, n, v);
        let acc2 = acc.push((n, v));
        let rest = hs.drop_first();
        assert forall|j: int|
            k + 1 <= j < hl.len() implies #[trigger] hl[j] == hdr_line_bytes(
            rest[j - k - 1].0,
            rest[j - k - 1].1,
        ) by {
            assert(rest[j - k - 1] == hs[j - k]);
        }
        assert forall|i: int| 0 <= i < rest.len() implies hdr_entry_canonical(
            #[trigger] rest[i],
        ) by {
            assert(rest[i] == hs[i + 1]);
        }
        assert forall|a: int, b: int| 0 <= a < b < rest.len() implies (#[trigger] rest[a]).0 != (
        #[trigger] rest[b]).0 by {
            assert(rest[a] == hs[a + 1] && rest[b] == hs[b + 1]);
        }
        assert forall|i: int| 0 <= i < rest.len() implies !name_in(acc2, (#[trigger] rest[i]).0) by {
            assert(rest[i] == hs[i + 1]);
            if name_in(acc2, hs[i + 1].0) {
                let q = choose|q: int| 0 <= q < acc2.len() && (#[trigger] acc2[q]).0 == hs[i + 1].0;
                if q < acc.len() {
                    assert(acc[q].0 == hs[i + 1].0);
                    assert(name_in(acc, hs[i + 1].0));
                } else {
                    assert(acc2[q] == (n, v));
                    assert(hs[0].0 == hs[i + 1].0);
                }
            }
        }
        lemma_parse_headers_fold(hl, rest, k + 1, acc2);
        assert(acc2 + rest =~= acc + hs);
        assert(upsert_hdr(acc, n, v) == acc2);
    }
}

/// The written head lines are fit lines.
proof fn lemma_head_lines_ok(rv: ReqView)
    requires
        canonical_req(rv),
    ensures
        lines_ok(head_lines_of(rv)),
        head_lines_of(rv).len() == 1 + rv.headers.len(),
{
    reveal_strlit(" ");
    reveal_strlit(": ");
    assert(" "@.len() == 1 && " "@[0] == ' ');
    assert(": "@.len() == 2 && ": "@[0] == ':' && ": "@[1] == ' ');
    let hl = head_lines_of(rv);
    lemma_method_chars_wf(rv.method);
    let sl = start_line_chars(rv);
    assert(byte_chars(sl) && clean_chars(sl) && sl.len() > 0) by {
        assert forall|i: int| #![auto] 0 <= i < sl.len() implies (sl[i] as u32) < 256 && sl[i]
            != '\r' && sl[i] != '\n' by {
            let mc = method_chars(rv.method);
            if i < mc.len() {
                assert(sl[i] == mc[i]);
            } else if i == mc.len() {
                assert(sl[i] == ' ');
            } else if i < mc.len() + 1 + rv.uri.len() {
                assert(sl[i] == rv.uri[i - mc.len() - 1]);
            } else if i == mc.len() + 1 + rv.uri.len() {
                assert(sl[i] == ' ');
            } else {
                assert(sl[i] == rv.version[i - mc.len() - 2 - rv.uri.len()]);
            }
        }
    }
    assert(line_ok(hl[0])) by {
        lemma_bytes_avoid(sl);
        assert(hl[0] == bytes_of_chars(sl));
    }
    assert forall|i: int| 0 <= i < hl.len() implies line_ok(#[trigger] hl[i]) by {
        if i >= 1 {
            let p = rv.headers[i - 1];
            assert(hdr_entry_canonical(p));
            assert(hl[i] == hdr_line_bytes(p.0, p.1));
            lemma_wire_of_ok(p.0);
            let lc = header_line_chars(p.0, p.1);
            assert(byte_chars(lc) && clean_chars(lc) && lc.len() > 0) by {
                let w = wire_of(p.0);
                assert forall|q: int| #![auto] 0 <= q < lc.len() implies (lc[q] as u32) < 256
                    && lc[q] != '\r' && lc[q] != '\n' by {
                    if q < w.len() {
                        assert(lc[q] == w[q]);
                    } else if q < w.len() + 2 {
                        assert(lc[q] == ": "@[q - w.len()]);
                    } else {
                        assert(lc[q] == p.1[q - w.len() - 2]);
                    }
                }
            }
            lemma_bytes_avoid(lc);
        }
    }
}

/// Reading the written start line gives method, URI and version back.
proof fn lemma_parse_start_line(rv: ReqView)
    requires
        canonical_req(rv),
    ensures
        spec_parse_start(head_lines_of(rv)[0]) == Ok::<(crate::http::Method, Seq<char>, Seq<char>), RequestError>(
            (rv.method, rv.uri, rv.version),
        ),
{
    reveal_strlit(" ");
    assert(" "@.len() == 1 && " "@[0] == ' ');
    lemma_method_chars_wf(rv.method);
    let mc = method_chars(rv.method);
    let bom = bytes_of_chars(mc);
    let bou = bytes_of_chars(rv.uri);
    let bov = bytes_of_chars(rv.version);
    let line0 = head_lines_of(rv)[0];
    assert(line0 =~= bom + seq![32u8] + bou + seq![32u8] + bov) by {
        assert(bytes_of_chars(" "@) =~= seq![32u8]);
        assert(bytes_of_chars(start_line_chars(rv)) =~= bytes_of_chars(mc) + bytes_of_chars(" "@)
            + bytes_of_chars(rv.uri) + bytes_of_chars(" "@) + bytes_of_chars(rv.version));
    }
    lemma_bytes_avoid(mc);
    lemma_bytes_avoid(rv.uri);
    assert forall|j: int| 0 <= j < bom.len() implies !match_at(line0, seq![32u8], j) by {
        lemma_match_one(line0, 32u8, j);
        assert(line0[j] == bom[j]);
    }
    assert(line0[bom.len() as int] == 32);
    lemma_match_one(line0, 32u8, bom.len() as int);
    lemma_find_at_exact(line0, seq![32u8], 0, bom.len() as int);
    assert(line0.take(bom.len() as int) =~= bom);
    lemma_bytes_of_chars_roundtrip(mc);
    lemma_method_roundtrip(rv.method);
    let rest = line0.skip(bom.len() as int + 1);
    assert(rest =~= bou + seq![32u8] + bov);
    assert forall|j: int| 0 <= j < bou.len() implies !match_at(rest, seq![32u8], j) by {
        lemma_match_one(rest, 32u8, j);
        assert(rest[j] == bou[j]);
    }
    assert(rest[bou.len() as int] == 32);
    lemma_match_one(rest, 32u8, bou.len() as int);
    lemma_find_at_exact(rest, seq![32u8], 0, bou.len() as int);
    assert(rest.take(bou.len() as int) =~= bou);
    assert(rest.skip(bou.len() as int + 1) =~= bov);
    lemma_bytes_of_chars_roundtrip(rv.uri);
    lemma_bytes_of_chars_roundtrip(rv.version);
}

/// The round trip: a canonical request reads back unchanged from the
/// bytes it is written as.
pub proof fn lemma_request_roundtrip(rv: ReqView)
    requires
        canonical_req(rv),
    ensures
        spec_parse_request(crate::request::request_bytes(rv), rv.address) == Ok::<
            ReqView,
            RequestError,
        >(rv),
{
    let hl = head_lines_of(rv);
    let join = join_sep(hl, crlf());
    let body = body_of(rv);
    let bytes = crate::request::request_bytes(rv);
    lemma_head_lines_ok(rv);
    lemma_find_terminator(hl, body);
    assert(find_at(bytes, crlf2(), 0) == Some(join.len() as int));
    let t = join.len() as int;
    assert(bytes.take(t) =~= join);
    assert(bytes.skip(t + 4) =~= body);
    lemma_split_join(hl);
    assert(split_from(bytes.take(t), crlf(), 0) == hl);
    assert(!(exists|k: int|
        #![auto]
        0 <= k < hl.len() && !clean_line(hl[k])));
    lemma_parse_start_line(rv);
    assert forall|j: int|
        1 <= j < hl.len() implies #[trigger] hl[j] == hdr_line_bytes(
        rv.headers[j - 1].0,
        rv.headers[j - 1].1,
    ) by {
        assert(hl[j] == rv.headers.map(
            |_i: int, p: (Seq<char>, Seq<char>)| bytes_of_chars(header_line_chars(p.0, p.1)),
        )[j - 1]);
    }
    lemma_parse_headers_fold(hl, rv.headers, 1, Seq::empty());
    assert(Seq::empty() + rv.headers =~= rv.headers);
    let rv2 = match spec_parse_request(bytes, rv.address) {
        Ok(x) => x,
        Err(_) => arbitrary(),
    };
    match view_lookup(rv.headers, "content-length"@) {
        None => {
            assert(rv.content is None);
            assert(rv2 =~= rv);
        },
        Some(clv) => {
            lemma_dec_value_nonneg(clv);
            match rv.content {
                None => {
                    assert(dec_value(clv) == 0);
                    assert(rv2 =~= rv);
                },
                Some(c) => {
                    assert(dec_value(clv) == c.len() && c.len() > 0);
                    assert(body == c);
                    assert(body.take(dec_value(clv)) =~= c);
                    assert(rv2 =~= rv);
                },
            }
        },
    }
}

/// The codec is closed under its own output: what the parser accepts,
/// written back, reads as the very same request — so serialising a
/// parsed request and parsing it again moves nothing.
pub proof fn lemma_codec_closed(b: Seq<u8>, addr: Seq<char>)
    ensures
        spec_parse_request(b, addr) matches Ok(rv) ==> spec_parse_request(
            crate::request::request_bytes(rv),
            rv.address,
        ) == Ok::<ReqView, RequestError>(rv),
{
    crate::request::lemma_parse_canonical(b, addr);
    match spec_parse_request(b, addr) {
        Ok(rv) => {
            lemma_request_roundtrip(rv);
        },
        Err(_) => {},
    }
}

} // verus!
