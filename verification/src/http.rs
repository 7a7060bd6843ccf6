//! HTTP vocabulary: request methods, status codes, and header names,
//! together with the ordered header list used by requests and responses.
//! Header names are case-insensitive; the list keeps insertion order and
//! at most one entry per name, and a later `set` overwrites in place.

use vstd::prelude::*;

use crate::text::{byte_chars, lower_chars, str_eq};

verus! {

/// An HTTP request method.
#[derive(Clone, Copy, PartialEq, Eq, Structural, Debug)]
pub enum Method {
    Get,
    Head,
    Post,
    Put,
    Delete,
    Connect,
    Options,
    Trace,
    Patch,
}

/// The wire name of a method.
pub open spec fn method_chars(m: Method) -> Seq<char> {
    match m {
        Method::Get => "GET"@,
        Method::Head => "HEAD"@,
        Method::Post => "POST"@,
        Method::Put => "PUT"@,
        Method::Delete => "DELETE"@,
        Method::Connect => "CONNECT"@,
        Method::Options => "OPTIONS"@,
        Method::Trace => "TRACE"@,
        Method::Patch => "PATCH"@,
    }
}

/// The method whose wire name is `s`, if any.  Matching is
/// case-sensitive, as the protocol requires.
pub open spec fn spec_method_of(s: Seq<char>) -> Option<Method> {
    if s == "GET"@ {
        Some(Method::Get)
    } else if s == "HEAD"@ {
        Some(Method::Head)
    } else if s == "POST"@ {
        Some(Method::Post)
    } else if s == "PUT"@ {
        Some(Method::Put)
    } else if s == "DELETE"@ {
        Some(Method::Delete)
    } else if s == "CONNECT"@ {
        Some(Method::Connect)
    } else if s == "OPTIONS"@ {
        Some(Method::Options)
    } else if s == "TRACE"@ {
        Some(Method::Trace)
    } else if s == "PATCH"@ {
        Some(Method::Patch)
    } else {
        None
    }
}

/// Reading a method's own wire name gives the method back.
pub proof fn lemma_method_roundtrip(m: Method)
    ensures
        spec_method_of(method_chars(m)) == Some(m),
{
    broadcast use vstd::string::group_string_axioms;

    reveal_strlit("GET");
    reveal_strlit("HEAD");
    reveal_strlit("POST");
    reveal_strlit("PUT");
    reveal_strlit("DELETE");
    reveal_strlit("CONNECT");
    reveal_strlit("OPTIONS");
    reveal_strlit("TRACE");
    reveal_strlit("PATCH");
    assert("GET"@.len() == 3);
    assert("HEAD"@.len() == 4);
    assert("POST"@.len() == 4);
    assert("PUT"@.len() == 3);
    assert("DELETE"@.len() == 6);
    assert("CONNECT"@.len() == 7);
    assert("OPTIONS"@.len() == 7);
    assert("TRACE"@.len() == 5);
    assert("PATCH"@.len() == 5);
    assert("HEAD"@[0] == 'H' && "POST"@[0] == 'P' && "PUT"@[0] == 'P' && "PUT"@[1] == 'U');
    assert("TRACE"@[0] == 'T' && "PATCH"@[0] == 'P');
    assert("CONNECT"@[0] == 'C' && "OPTIONS"@[0] == 'O');
}

impl Method {
    /// The method's wire name.
    pub fn as_str(&self) -> (r: &'static str)
        ensures
            r@ == method_chars(*self),
    {
        match self {
            Method::Get => "GET",
            Method::Head => "HEAD",
            Method::Post => "POST",
            Method::Put => "PUT",
            Method::Delete => "DELETE",
            Method::Connect => "CONNECT",
            Method::Options => "OPTIONS",
            Method::Trace => "TRACE",
            Method::Patch => "PATCH",
        }
    }

    /// Looks a method up by its wire name.
    pub fn from_name(name: &String) -> (r: Option<Method>)
        ensures
            r == spec_method_of(name@),
    {
        if str_eq(name, "GET") {
            Some(Method::Get)
        } else if str_eq(name, "HEAD") {
            Some(Method::Head)
        } else if str_eq(name, "POST") {
            Some(Method::Post)
        } else if str_eq(name, "PUT") {
            Some(Method::Put)
        } else if str_eq(name, "DELETE") {
            Some(Method::Delete)
        } else if str_eq(name, "CONNECT") {
            Some(Method::Connect)
        } else if str_eq(name, "OPTIONS") {
            Some(Method::Options)
        } else if str_eq(name, "TRACE") {
            Some(Method::Trace)
        } else if str_eq(name, "PATCH") {
            Some(Method::Patch)
        } else {
            None
        }
    }
}

/// An HTTP response status.
#[derive(Clone, Copy, PartialEq, Eq, Structural, Debug)]
pub enum StatusCode {
    OK,
    MovedPermanently,
    Found,
    BadRequest,
    Forbidden,
    NotFound,
    RequestTimeout,
    InternalError,
    BadGateway,
}

/// The numeric code of a status.
pub open spec fn status_num(s: StatusCode) -> u16 {
    match s {
        StatusCode::OK => 200,
        StatusCode::MovedPermanently => 301,
        StatusCode::Found => 302,
        StatusCode::BadRequest => 400,
        StatusCode::Forbidden => 403,
        StatusCode::NotFound => 404,
        StatusCode::RequestTimeout => 408,
        StatusCode::InternalError => 500,
        StatusCode::BadGateway => 502,
    }
}

/// The reason phrase of a status.
pub open spec fn status_reason(s: StatusCode) -> Seq<char> {
    match s {
        StatusCode::OK => "OK"@,
        StatusCode::MovedPermanently => "Moved Permanently"@,
        StatusCode::Found => "Found"@,
        StatusCode::BadRequest => "Bad Request"@,
        StatusCode::Forbidden => "Forbidden"@,
        StatusCode::NotFound => "Not Found"@,
        StatusCode::RequestTimeout => "Request Timeout"@,
        StatusCode::InternalError => "Internal Server Error"@,
        StatusCode::BadGateway => "Bad Gateway"@,
    }
}

impl StatusCode {
    /// The numeric code.
    pub fn code(&self) -> (r: u16)
        ensures
            r == status_num(*self),
    {
        match self {
            StatusCode::OK => 200,
            StatusCode::MovedPermanently => 301,
            StatusCode::Found => 302,
            StatusCode::BadRequest => 400,
            StatusCode::Forbidden => 403,
            StatusCode::NotFound => 404,
            StatusCode::RequestTimeout => 408,
            StatusCode::InternalError => 500,
            StatusCode::BadGateway => 502,
        }
    }

    /// The reason phrase.
    pub fn reason(&self) -> (r: &'static str)
        ensures
            r@ == status_reason(*self),
    {
        match self {
            StatusCode::OK => "OK",
            StatusCode::MovedPermanently => "Moved Permanently",
            StatusCode::Found => "Found",
            StatusCode::BadRequest => "Bad Request",
            StatusCode::Forbidden => "Forbidden",
            StatusCode::NotFound => "Not Found",
            StatusCode::RequestTimeout => "Request Timeout",
            StatusCode::InternalError => "Internal Server Error",
            StatusCode::BadGateway => "Bad Gateway",
        }
    }
}

/// A request header name.  Known names are folded to a variant when a
/// request is read; anything else is kept, lower-cased, in `Custom`.
#[derive(Clone, PartialEq, Eq, PartialOrd, Ord, Debug)]
pub enum RequestHeader {
    Host,
    Connection,
    ContentLength,
    ContentType,
    Upgrade,
    UserAgent,
    Accept,
    AcceptEncoding,
    AcceptLanguage,
    SecWebSocketKey,
    SecWebSocketVersion,
    Custom(String),
}

/// The lower-case name of a request header: the key under which the
/// header list is addressed.
pub open spec fn req_name(h: RequestHeader) -> Seq<char> {
    match h {
        RequestHeader::Host => "host"@,
        RequestHeader::Connection => "connection"@,
        RequestHeader::ContentLength => "content-length"@,
        RequestHeader::ContentType => "content-type"@,
        RequestHeader::Upgrade => "upgrade"@,
        RequestHeader::UserAgent => "user-agent"@,
        RequestHeader::Accept => "accept"@,
        RequestHeader::AcceptEncoding => "accept-encoding"@,
        RequestHeader::AcceptLanguage => "accept-language"@,
        RequestHeader::SecWebSocketKey => "sec-websocket-key"@,
        RequestHeader::SecWebSocketVersion => "sec-websocket-version"@,
        RequestHeader::Custom(s) => s@,
    }
}

/// The capitalised form written on the wire for a known name; a custom
/// name is written as stored.
pub open spec fn req_wire_name(h: RequestHeader) -> Seq<char> {
    match h {
        RequestHeader::Host => "Host"@,
        RequestHeader::Connection => "Connection"@,
        RequestHeader::ContentLength => "Content-Length"@,
        RequestHeader::ContentType => "Content-Type"@,
        RequestHeader::Upgrade => "Upgrade"@,
        RequestHeader::UserAgent => "User-Agent"@,
        RequestHeader::Accept => "Accept"@,
        RequestHeader::AcceptEncoding => "Accept-Encoding"@,
        RequestHeader::AcceptLanguage => "Accept-Language"@,
        RequestHeader::SecWebSocketKey => "Sec-WebSocket-Key"@,
        RequestHeader::SecWebSocketVersion => "Sec-WebSocket-Version"@,
        RequestHeader::Custom(s) => s@,
    }
}

/// The header variant for a recognised lower-case name; it says nothing
/// of other names.
pub open spec fn spec_req_header_of(n: Seq<char>) -> RequestHeader {
    if n == "host"@ {
        RequestHeader::Host
    } else if n == "connection"@ {
        RequestHeader::Connection
    } else if n == "content-length"@ {
        RequestHeader::ContentLength
    } else if n == "content-type"@ {
        RequestHeader::ContentType
    } else if n == "upgrade"@ {
        RequestHeader::Upgrade
    } else if n == "user-agent"@ {
        RequestHeader::UserAgent
    } else if n == "accept"@ {
        RequestHeader::Accept
    } else if n == "accept-encoding"@ {
        RequestHeader::AcceptEncoding
    } else if n == "accept-language"@ {
        RequestHeader::AcceptLanguage
    } else if n == "sec-websocket-key"@ {
        RequestHeader::SecWebSocketKey
    } else if n == "sec-websocket-version"@ {
        RequestHeader::SecWebSocketVersion
    } else {
        arbitrary()
    }
}

/// Whether `n` is one of the recognised lower-case names.
pub open spec fn is_known_req_name(n: Seq<char>) -> bool {
    ||| n == "host"@
    ||| n == "connection"@
    ||| n == "content-length"@
    ||| n == "content-type"@
    ||| n == "upgrade"@
    ||| n == "user-agent"@
    ||| n == "accept"@
    ||| n == "accept-encoding"@
    ||| n == "accept-language"@
    ||| n == "sec-websocket-key"@
    ||| n == "sec-websocket-version"@
}

impl RequestHeader {
    /// Folds a lower-case name into its header variant.
    pub fn from_name(name: String) -> (r: RequestHeader)
        ensures
            req_name(r) == name@,
            is_known_req_name(name@) ==> r == spec_req_header_of(name@),
            !is_known_req_name(name@) ==> (r matches RequestHeader::Custom(s) && s@ == name@),
    {
        if str_eq(&name, "host") {
            RequestHeader::Host
        } else if str_eq(&name, "connection") {
            RequestHeader::Connection
        } else if str_eq(&name, "content-length") {
            RequestHeader::ContentLength
        } else if str_eq(&name, "content-type") {
            RequestHeader::ContentType
        } else if str_eq(&name, "upgrade") {
            RequestHeader::Upgrade
        } else if str_eq(&name, "user-agent") {
            RequestHeader::UserAgent
        } else if str_eq(&name, "accept") {
            RequestHeader::Accept
        } else if str_eq(&name, "accept-encoding") {
            RequestHeader::AcceptEncoding
        } else if str_eq(&name, "accept-language") {
            RequestHeader::AcceptLanguage
        } else if str_eq(&name, "sec-websocket-key") {
            RequestHeader::SecWebSocketKey
        } else if str_eq(&name, "sec-websocket-version") {
            RequestHeader::SecWebSocketVersion
        } else {
            RequestHeader::Custom(name)
        }
    }

    /// The lower-case name of this header.
    pub fn name(&self) -> (r: String)
        ensures
            r@ == req_name(*self),
    {
        match self {
            RequestHeader::Host => String::from_str("host"),
            RequestHeader::Connection => String::from_str("connection"),
            RequestHeader::ContentLength => String::from_str("content-length"),
            RequestHeader::ContentType => String::from_str("content-type"),
            RequestHeader::Upgrade => String::from_str("upgrade"),
            RequestHeader::UserAgent => String::from_str("user-agent"),
            RequestHeader::Accept => String::from_str("accept"),
            RequestHeader::AcceptEncoding => String::from_str("accept-encoding"),
            RequestHeader::AcceptLanguage => String::from_str("accept-language"),
            RequestHeader::SecWebSocketKey => String::from_str("sec-websocket-key"),
            RequestHeader::SecWebSocketVersion => String::from_str("sec-websocket-version"),
            RequestHeader::Custom(s) => s.clone(),
        }
    }

    /// The form written on the wire.
    pub fn wire_name(&self) -> (r: String)
        ensures
            r@ == req_wire_name(*self),
    {
        match self {
            RequestHeader::Host => String::from_str("Host"),
            RequestHeader::Connection => String::from_str("Connection"),
            RequestHeader::ContentLength => String::from_str("Content-Length"),
            RequestHeader::ContentType => String::from_str("Content-Type"),
            RequestHeader::Upgrade => String::from_str("Upgrade"),
            RequestHeader::UserAgent => String::from_str("User-Agent"),
            RequestHeader::Accept => String::from_str("Accept"),
            RequestHeader::AcceptEncoding => String::from_str("Accept-Encoding"),
            RequestHeader::AcceptLanguage => String::from_str("Accept-Language"),
            RequestHeader::SecWebSocketKey => String::from_str("Sec-WebSocket-Key"),
            RequestHeader::SecWebSocketVersion => String::from_str("Sec-WebSocket-Version"),
            RequestHeader::Custom(s) => s.clone(),
        }
    }
}

/// A response header name.
#[derive(Clone, PartialEq, Eq, Debug)]
pub enum ResponseHeader {
    ContentLength,
    ContentType,
    Connection,
    Date,
    Server,
    Location,
    CacheControl,
    Custom(String),
}

/// The form a response header name takes on the wire; doubles as the
/// key of the header list (response names are compared exactly).
pub open spec fn resp_name(h: ResponseHeader) -> Seq<char> {
    match h {
        ResponseHeader::ContentLength => "Content-Length"@,
        ResponseHeader::ContentType => "Content-Type"@,
        ResponseHeader::Connection => "Connection"@,
        ResponseHeader::Date => "Date"@,
        ResponseHeader::Server => "Server"@,
        ResponseHeader::Location => "Location"@,
        ResponseHeader::CacheControl => "Cache-Control"@,
        ResponseHeader::Custom(s) => s@,
    }
}

impl ResponseHeader {
    /// The name written on the wire.
    pub fn wire_name(&self) -> (r: String)
        ensures
            r@ == resp_name(*self),
    {
        match self {
            ResponseHeader::ContentLength => String::from_str("Content-Length"),
            ResponseHeader::ContentType => String::from_str("Content-Type"),
            ResponseHeader::Connection => String::from_str("Connection"),
            ResponseHeader::Date => String::from_str("Date"),
            ResponseHeader::Server => String::from_str("Server"),
            ResponseHeader::Location => String::from_str("Location"),
            ResponseHeader::CacheControl => String::from_str("Cache-Control"),
            ResponseHeader::Custom(s) => s.clone(),
        }
    }
}

/// Fit to stand as a header name on the wire: free of colons, carriage
/// returns and line feeds.
pub open spec fn hdr_name_chars_ok(s: Seq<char>) -> bool {
    forall|i: int| #![auto] 0 <= i < s.len() ==> s[i] != ':' && s[i] != '\r' && s[i] != '\n'
}

/// The wire name of a method is non-empty, one byte per character, and
/// free of spaces, carriage returns and line feeds.
pub proof fn lemma_method_chars_wf(m: Method)
    ensures
        byte_chars(method_chars(m)),
        method_chars(m).len() > 0,
        forall|i: int|
            #![auto]
            0 <= i < method_chars(m).len() ==> method_chars(m)[i] != ' ' && method_chars(m)[i]
                != '\r' && method_chars(m)[i] != '\n',
{
    reveal_strlit("GET");
    reveal_strlit("HEAD");
    reveal_strlit("POST");
    reveal_strlit("PUT");
    reveal_strlit("DELETE");
    reveal_strlit("CONNECT");
    reveal_strlit("OPTIONS");
    reveal_strlit("TRACE");
    reveal_strlit("PATCH");
}

/// For a known header, its lower-case name is recognised and leads back
/// to the same variant, and its wire form is well-shaped: one byte per
/// character, no colon or line break, and lower-casing it gives the
/// name back.
pub proof fn lemma_req_header_names(h: RequestHeader)
    requires
        match h {
            RequestHeader::Custom(_) => false,
            _ => true,
        },
    ensures
        is_known_req_name(req_name(h)),
        spec_req_header_of(req_name(h)) == h,
        byte_chars(req_wire_name(h)),
        lower_chars(req_wire_name(h)) == req_name(h),
        hdr_name_chars_ok(req_wire_name(h)),
{
    reveal_strlit("host");
    reveal_strlit("connection");
    reveal_strlit("content-length");
    reveal_strlit("content-type");
    reveal_strlit("upgrade");
    reveal_strlit("user-agent");
    reveal_strlit("accept");
    reveal_strlit("accept-encoding");
    reveal_strlit("accept-language");
    reveal_strlit("sec-websocket-key");
    reveal_strlit("sec-websocket-version");
    reveal_strlit("Host");
    reveal_strlit("Connection");
    reveal_strlit("Content-Length");
    reveal_strlit("Content-Type");
    reveal_strlit("Upgrade");
    reveal_strlit("User-Agent");
    reveal_strlit("Accept");
    reveal_strlit("Accept-Encoding");
    reveal_strlit("Accept-Language");
    reveal_strlit("Sec-WebSocket-Key");
    reveal_strlit("Sec-WebSocket-Version");
    assert("host"@.len() == 4);
    assert("connection"@.len() == 10);
    assert("content-length"@.len() == 14);
    assert("content-type"@.len() == 12);
    assert("upgrade"@.len() == 7);
    assert("user-agent"@.len() == 10);
    assert("accept"@.len() == 6);
    assert("accept-encoding"@.len() == 15);
    assert("accept-language"@.len() == 15);
    assert("sec-websocket-key"@.len() == 17);
    assert("sec-websocket-version"@.len() == 21);
    assert("connection"@[0] == 'c' && "user-agent"@[0] == 'u');
    assert("accept-encoding"@[7] == 'e' && "accept-language"@[7] == 'l');
    match h {
        RequestHeader::Host => {
            assert(lower_chars("Host"@) =~= "host"@);
        },
        RequestHeader::Connection => {
            assert(lower_chars("Connection"@) =~= "connection"@);
        },
        RequestHeader::ContentLength => {
            assert(lower_chars("Content-Length"@) =~= "content-length"@);
        },
        RequestHeader::ContentType => {
            assert(lower_chars("Content-Type"@) =~= "content-type"@);
        },
        RequestHeader::Upgrade => {
            assert(lower_chars("Upgrade"@) =~= "upgrade"@);
        },
        RequestHeader::UserAgent => {
            assert(lower_chars("User-Agent"@) =~= "user-agent"@);
        },
        RequestHeader::Accept => {
            assert(lower_chars("Accept"@) =~= "accept"@);
        },
        RequestHeader::AcceptEncoding => {
            assert(lower_chars("Accept-Encoding"@) =~= "accept-encoding"@);
        },
        RequestHeader::AcceptLanguage => {
            assert(lower_chars("Accept-Language"@) =~= "accept-language"@);
        },
        RequestHeader::SecWebSocketKey => {
            assert(lower_chars("Sec-WebSocket-Key"@) =~= "sec-websocket-key"@);
        },
        RequestHeader::SecWebSocketVersion => {
            assert(lower_chars("Sec-WebSocket-Version"@) =~= "sec-websocket-version"@);
        },
        RequestHeader::Custom(_) => {},
    }
}

} // verus!
