//! The server proper: the typed configuration, the shared application
//! state, connection admission, route dispatch with first-match
//! semantics, the decisions of the static, redirect and proxy handlers,
//! and the keep-alive rule of the per-connection loop.  Everything that
//! reads or writes sockets and files stays outside; this module decides
//! what those reads and writes mean.

use vstd::prelude::*;

use crate::balancer::{LoadBalancer, LoadBalancerMode};
use crate::cache::{cache_lookup, Cache};
use crate::config::spec_routes;
use crate::http::{ResponseHeader, StatusCode};
use crate::request::{Request, RequestError};
use crate::response::{connection_wish, spec_keep_alive, Response};
use crate::text::{lower_chars, str_eq, to_lowercase, u64_to_string};
use crate::wildcard::{wild_matches, wildcard_match};

verus! {

/// What to do with a blacklisted peer: refuse the connection outright,
/// or serve `403 Forbidden`.
#[derive(Clone, Copy, PartialEq, Eq, Structural, Debug)]
pub enum BlacklistMode {
    Block,
    Forbidden,
}

/// The peers that are not welcome.
pub struct Blacklist {
    pub mode: BlacklistMode,
    pub list: Vec<String>,
}

/// One entry of the route table.
pub enum RouteConfig {
    File { matches: String, file: String },
    Directory { matches: String, directory: String },
    Proxy { matches: String, load_balancer: LoadBalancer },
    Redirect { matches: String, target: String },
}

/// The pattern a route is selected by.
pub open spec fn route_pattern(r: RouteConfig) -> Seq<char> {
    match r {
        RouteConfig::File { matches, .. } => matches@,
        RouteConfig::Directory { matches, .. } => matches@,
        RouteConfig::Proxy { matches, .. } => matches@,
        RouteConfig::Redirect { matches, .. } => matches@,
    }
}

/// The typed server configuration.
pub struct Config {
    pub address: String,
    pub port: u16,
    pub threads: u64,
    pub cache_limit: u64,
    pub websocket_proxy: Option<String>,
    pub blacklist: Blacklist,
    pub routes: Vec<RouteConfig>,
}

impl Config {
    pub open spec fn wf(&self) -> bool {
        forall|i: int|
            0 <= i < self.routes@.len() ==> match #[trigger] self.routes@[i] {
                RouteConfig::Proxy { load_balancer, .. } => load_balancer.wf()
                    && load_balancer.targets@.len() > 0,
                _ => true,
            }
    }
}

/// The state every worker shares: the immutable configuration and the
/// response cache.
pub struct AppState {
    pub config: Config,
    pub cache: Cache,
}

impl AppState {
    pub open spec fn wf(&self) -> bool {
        &&& self.config.wf()
        &&& self.cache.wf()
    }

    /// Fresh state for a configuration: an empty cache of the
    /// configured size.
    pub fn from_config(config: Config) -> (r: AppState)
        requires
            config.wf(),
        ensures
            r.wf(),
            r.config == config,
            r.cache.entries@ =~= Seq::<crate::cache::CacheEntry>::empty(),
            r.cache.limit == config.cache_limit,
    {
        let limit = config.cache_limit;
        AppState { config: config, cache: Cache::new(limit) }
    }
}

/// Whether the address stands on the blacklist.
pub open spec fn ip_blacklisted(config: Config, ip: Seq<char>) -> bool {
    exists|i: int|
        0 <= i < config.blacklist.list@.len() && (#[trigger] config.blacklist.list@[i])@ == ip
}

/// Whether a peer may connect: a missing address is refused, and so is
/// a blacklisted one when the blacklist blocks at the door.
pub open spec fn spec_connection_allowed(config: Config, peer_ip: Option<String>) -> bool {
    match peer_ip {
        None => false,
        Some(ip) => !(config.blacklist.mode == BlacklistMode::Block && ip_blacklisted(
            config,
            ip@,
        )),
    }
}

/// Checks the address against the blacklist.
fn ip_blacklisted_exec(config: &Config, ip: &str) -> (r: bool)
    ensures
        r == ip_blacklisted(*config, ip@),
{
    let mut i: usize = 0;
    while i < config.blacklist.list.len()
        invariant
            0 <= i <= config.blacklist.list@.len(),
            forall|k: int| 0 <= k < i ==> (#[trigger] config.blacklist.list@[k])@ != ip@,
        decreases config.blacklist.list@.len() - i,
    {
        if str_eq(&config.blacklist.list[i], ip) {
            proof {
                assert(0 <= i < config.blacklist.list@.len() && (
                #[trigger] config.blacklist.list@[i as int])@ == ip@);
            }
            return true;
        }
        i += 1;
    }
    false
}

/// Verifies that the client is allowed to connect, checking its address
/// against the blacklist.
#[verifier::loop_isolation(false)]
pub fn verify_connection(config: &Config, peer_ip: Option<&String>) -> (r: bool)
    ensures
        r == spec_connection_allowed(*config, match peer_ip {
            Some(ip) => Some(*ip),
            None => None,
        }),
{
    match peer_ip {
        None => false,
        Some(ip) => {
            if matches!(config.blacklist.mode, BlacklistMode::Block) {
                let mut i: usize = 0;
                while i < config.blacklist.list.len()
                    invariant
                        0 <= i <= config.blacklist.list@.len(),
                        forall|k: int|
                            0 <= k < i ==> (#[trigger] config.blacklist.list@[k])@ != ip@,
                    decreases config.blacklist.list@.len() - i,
                {
                    if str_eq(&config.blacklist.list[i], ip.as_str()) {
                        proof {
                            assert(exists|k: int|
                                0 <= k < config.blacklist.list@.len() && (
                                #[trigger] config.blacklist.list@[k])@ == ip@);
                        }
                        return false;
                    }
                    i += 1;
                }
                true
            } else {
                true
            }
        },
    }
}

/// The first route whose pattern matches the URI.
pub open spec fn first_route(routes: Seq<RouteConfig>, uri: Seq<char>) -> Option<int>
    decreases routes.len(),
{
    if routes.len() == 0 {
        None
    } else if wild_matches(route_pattern(routes[0]), uri) {
        Some(0)
    } else {
        match first_route(routes.drop_first(), uri) {
            Some(i) => Some(i + 1),
            None => None,
        }
    }
}

/// The first match, where there is one, stands inside the table and
/// really matches.
pub proof fn lemma_first_route_bounds(routes: Seq<RouteConfig>, uri: Seq<char>)
    ensures
        match first_route(routes, uri) {
            Some(j) => 0 <= j < routes.len() && wild_matches(route_pattern(routes[j]), uri),
            None => true,
        },
    decreases routes.len(),
{
    if routes.len() > 0 && !wild_matches(route_pattern(routes[0]), uri) {
        lemma_first_route_bounds(routes.drop_first(), uri);
        match first_route(routes.drop_first(), uri) {
            Some(j) => {
                assert(routes.drop_first()[j] == routes[j + 1]);
            },
            None => {},
        }
    }
}

/// Finds the first matching route; entries are tried strictly in order.
#[verifier::loop_isolation(false)]
pub fn select_route(routes: &Vec<RouteConfig>, uri: &str) -> (r: Option<usize>)
    ensures
        match r {
            Some(i) => first_route(routes@, uri@) == Some(i as int) && i < routes@.len(),
            None => first_route(routes@, uri@) is None,
        },
{
    let ghost rs = routes@;
    let mut i: usize = 0;
    proof {
        assert(rs.skip(0) =~= rs);
        lemma_first_route_bounds(rs, uri@);
    }
    while i < routes.len()
        invariant
            0 <= i <= rs.len(),
            rs == routes@,
            match first_route(rs, uri@) {
                Some(j) => i <= j && first_route(rs.skip(i as int), uri@) == Some(j - i),
                None => first_route(rs.skip(i as int), uri@) is None,
            },
        decreases rs.len() - i,
    {
        let pat = match &routes[i] {
            RouteConfig::File { matches, .. } => matches,
            RouteConfig::Directory { matches, .. } => matches,
            RouteConfig::Proxy { matches, .. } => matches,
            RouteConfig::Redirect { matches, .. } => matches,
        };
        let hit = wildcard_match(pat.as_str(), uri);
        proof {
            assert(rs.skip(i as int)[0] == rs[i as int]);
            assert(pat@ == route_pattern(rs[i as int]));
            assert(rs.skip(i as int).drop_first() =~= rs.skip(i + 1));
        }
        if hit {
            proof {
                lemma_first_route_skip(rs, uri@, i as int);
            }
            return Some(i);
        }
        i += 1;
    }
    proof {
        assert(rs.skip(rs.len() as int) =~= Seq::<RouteConfig>::empty());
    }
    None
}

/// When a match stands at the head of the remainder, the overall first
/// match is exactly there.
proof fn lemma_first_route_skip(rs: Seq<RouteConfig>, uri: Seq<char>, i: int)
    requires
        0 <= i < rs.len(),
        wild_matches(route_pattern(rs[i]), uri),
        match first_route(rs, uri) {
            Some(j) => i <= j && first_route(rs.skip(i), uri) == Some(j - i),
            None => first_route(rs.skip(i), uri) is None,
        },
    ensures
        first_route(rs, uri) == Some(i),
{
    assert(rs.skip(i)[0] == rs[i]);
}

/// What the worker must now do for a request, decided from the route
/// table alone.
pub enum RouteAction {
    ServeFile { path: String },
    ServeDirectory { path: String },
    ProxyTo { target: String },
    RedirectTo { target: String },
    NotFound,
}

/// A `..` path component stands in the string: two dots alone between
/// slashes or the string's ends.  Only such a component can climb out
/// of the base directory; dots inside a name are harmless.
pub open spec fn dotdot_at(s: Seq<char>, i: int) -> bool {
    &&& 0 <= i && i + 2 <= s.len()
    &&& s[i] == '.' && s[i + 1] == '.'
    &&& (i == 0 || s[i - 1] == '/')
    &&& (i + 2 == s.len() || s[i + 2] == '/')
}

pub open spec fn has_dotdot(s: Seq<char>) -> bool {
    exists|i: int| #[trigger] dotdot_at(s, i)
}

/// Scans a URI for a `..` path component.
pub fn contains_dotdot(uri: &str) -> (r: bool)
    ensures
        r == has_dotdot(uri@),
{
    let cs = crate::wildcard::str_chars(uri);
    let n = cs.len();
    if n < 2 {
        proof {
            assert forall|k: int| !dotdot_at(uri@, k) by {}
        }
        return false;
    }
    let mut i: usize = 0;
    while i < n - 1
        invariant
            cs@ == uri@,
            n == cs@.len(),
            n >= 2,
            0 <= i <= n - 1,
            forall|k: int| 0 <= k < i ==> !#[trigger] dotdot_at(cs@, k),
        decreases n - i,
    {
        if cs[i] == '.' && cs[i + 1] == '.' && (i == 0 || cs[i - 1] == '/') && (i + 2 == n || cs[i
            + 2] == '/') {
            proof {
                assert(dotdot_at(uri@, i as int));
            }
            return true;
        }
        i += 1;
    }
    proof {
        assert forall|k: int| !#[trigger] dotdot_at(uri@, k) by {
            if 0 <= k < n - 1 {
            }
        }
    }
    false
}

/// The same route up to its proxy cursor: dispatch moves nothing else.
pub open spec fn route_frame(a: RouteConfig, b: RouteConfig) -> bool {
    match (a, b) {
        (
            RouteConfig::Proxy { matches: m1, load_balancer: l1 },
            RouteConfig::Proxy { matches: m2, load_balancer: l2 },
        ) => m1 == m2 && l1.targets == l2.targets && l1.mode == l2.mode,
        _ => a == b,
    }
}

/// The action for a request: the first matching route decides, a file
/// route serves its file, a directory route resolves the URI under its
/// directory — unless the URI tries to climb out with `..` — a proxy
/// route picks a backend, a redirect route gives its target, and no
/// match at all is not found.
pub fn dispatch(state: &mut AppState, uri: &str, entropy: u64) -> (r: RouteAction)
    requires
        old(state).wf(),
    ensures
        final(state).wf(),
        final(state).cache == old(state).cache,
        final(state).config.address == old(state).config.address,
        final(state).config.port == old(state).config.port,
        final(state).config.threads == old(state).config.threads,
        final(state).config.cache_limit == old(state).config.cache_limit,
        final(state).config.websocket_proxy == old(state).config.websocket_proxy,
        final(state).config.blacklist == old(state).config.blacklist,
        final(state).config.routes@.len() == old(state).config.routes@.len(),
        forall|j: int|
            0 <= j < old(state).config.routes@.len() ==> route_frame(
                #[trigger] old(state).config.routes@[j],
                final(state).config.routes@[j],
            ),
        match first_route(old(state).config.routes@, uri@) {
            None => r is NotFound,
            Some(i) => match old(state).config.routes@[i] {
                RouteConfig::File { matches, file } => (r matches RouteAction::ServeFile { path }
                    && path@ == file@),
                RouteConfig::Directory { matches, directory } => if has_dotdot(uri@) {
                    r is NotFound
                } else {
                    (r matches RouteAction::ServeDirectory { path } && path@ == directory@ + uri@)
                },
                RouteConfig::Redirect { matches, target } => (r matches RouteAction::RedirectTo {
                    target: t,
                } && t@ == target@),
                RouteConfig::Proxy { matches, load_balancer } => (r matches RouteAction::ProxyTo {
                    target,
                } && (load_balancer.mode == LoadBalancerMode::RoundRobin ==> target@
                    == load_balancer.targets@[load_balancer.cursor as int]@ && (
                final(state).config.routes@[i] matches RouteConfig::Proxy {
                    load_balancer: lb2,
                    ..
                } && lb2.cursor as int == (load_balancer.cursor + 1) % (
                load_balancer.targets@.len() as int))) && (load_balancer.mode
                    == LoadBalancerMode::Random ==> target@ == load_balancer.targets@[(entropy % (
                load_balancer.targets@.len() as u64)) as int]@ && final(state).config.routes@[i]
                    == old(state).config.routes@[i])),
            },
        },
{
    let idx = match select_route(&state.config.routes, uri) {
        None => {
            return RouteAction::NotFound;
        },
        Some(i) => i,
    };
    let ghost pre = *state;
    let route = &mut state.config.routes[idx];
    match route {
        RouteConfig::File { file, .. } => RouteAction::ServeFile { path: file.clone() },
        RouteConfig::Directory { directory, .. } => {
            if contains_dotdot(uri) {
                RouteAction::NotFound
            } else {
                let mut path = directory.clone();
                path.append(uri);
                RouteAction::ServeDirectory { path: path }
            }
        },
        RouteConfig::Redirect { target, .. } => RouteAction::RedirectTo {
            target: target.clone(),
        },
        RouteConfig::Proxy { load_balancer, .. } => {
            let target = load_balancer.select(entropy);
            RouteAction::ProxyTo { target: target }
        },
    }
}

/// The start of the extension: the suffix after the last dot, or the
/// whole name when it has none.
pub open spec fn rfind_dot(s: Seq<char>) -> Option<int>
    decreases s.len(),
{
    if s.len() == 0 {
        None
    } else if s.last() == '.' {
        Some(s.len() - 1)
    } else {
        rfind_dot(s.drop_last())
    }
}

pub open spec fn ext_of(s: Seq<char>) -> Seq<char> {
    match rfind_dot(s) {
        Some(i) => s.skip(i + 1),
        None => s,
    }
}

/// The extension a path or URI ends with.
pub fn extension_of(s: &str) -> (r: String)
    ensures
        r@ == ext_of(s@),
{
    let cs = crate::wildcard::str_chars(s);
    let n = cs.len();
    let mut b: usize = n;
    proof {
        assert(s@.take(n as int) =~= s@);
    }
    while b > 0 && cs[b - 1] != '.'
        invariant
            cs@ == s@,
            n == cs@.len(),
            0 <= b <= n,
            rfind_dot(s@) == rfind_dot(s@.take(b as int)),
            forall|k: int| b <= k < n ==> #[trigger] cs@[k] != '.',
        decreases b,
    {
        proof {
            assert(s@.take(b as int).last() == cs@[b - 1]);
            assert(s@.take(b as int).drop_last() =~= s@.take(b - 1));
        }
        b -= 1;
    }
    if b == 0 {
        proof {
            assert(s@.take(0) =~= Seq::<char>::empty());
            assert(rfind_dot(s@) is None);
            assert(ext_of(s@) == s@);
        }
        crate::text::chars_to_string(cs.as_slice())
    } else {
        proof {
            assert(s@.take(b as int).last() == cs@[b - 1]);
            assert(rfind_dot(s@) == Some(b - 1));
        }
        let tail = crate::wildcard::chars_range(cs.as_slice(), b, n);
        proof {
            assert(tail@ =~= s@.skip(b as int));
        }
        crate::text::chars_to_string(tail.as_slice())
    }
}

/// The MIME type for a file extension; anything unknown is served as
/// `text/html`.
pub open spec fn spec_mime(ext: Seq<char>) -> Seq<char> {
    if ext == "css"@ {
        "text/css"@
    } else if ext == "js"@ {
        "application/javascript"@
    } else if ext == "json"@ {
        "application/json"@
    } else if ext == "png"@ {
        "image/png"@
    } else if ext == "jpg"@ || ext == "jpeg"@ {
        "image/jpeg"@
    } else if ext == "gif"@ {
        "image/gif"@
    } else if ext == "svg"@ {
        "image/svg+xml"@
    } else if ext == "txt"@ {
        "text/plain"@
    } else if ext == "ico"@ {
        "image/x-icon"@
    } else {
        "text/html"@
    }
}

/// Looks the MIME type of an extension up.
pub fn mime_by_extension(ext: &String) -> (r: String)
    ensures
        r@ == spec_mime(ext@),
{
    if str_eq(ext, "css") {
        String::from_str("text/css")
    } else if str_eq(ext, "js") {
        String::from_str("application/javascript")
    } else if str_eq(ext, "json") {
        String::from_str("application/json")
    } else if str_eq(ext, "png") {
        String::from_str("image/png")
    } else if str_eq(ext, "jpg") || str_eq(ext, "jpeg") {
        String::from_str("image/jpeg")
    } else if str_eq(ext, "gif") {
        String::from_str("image/gif")
    } else if str_eq(ext, "svg") {
        String::from_str("image/svg+xml")
    } else if str_eq(ext, "txt") {
        String::from_str("text/plain")
    } else if str_eq(ext, "ico") {
        String::from_str("image/x-icon")
    } else {
        String::from_str("text/html")
    }
}

/// Whether the request asks to keep the connection open: its
/// `Connection` header, read without case, says `keep-alive`.
pub fn keep_alive_requested(request: &Request) -> (r: bool)
    ensures
        r == spec_keep_alive(request@),
{
    match request.header(&crate::http::RequestHeader::Connection) {
        Some(v) => {
            let lowered = to_lowercase(v.as_str());
            str_eq(&lowered, "keep-alive")
        },
        None => {
            proof {
                reveal_strlit("close");
                reveal_strlit("keep-alive");
                assert("close"@.len() == 5);
                assert("keep-alive"@.len() == 10);
                crate::text::lemma_lower_chars_props("close"@);
                assert(lower_chars("close"@).len() == 5);
            }
            false
        },
    }
}

/// The body of a framework error page.
pub open spec fn error_body_chars(s: StatusCode) -> Seq<char> {
    "<html><body><h1>"@ + crate::text::dec_digits_of(crate::http::status_num(s) as nat) + " "@
        + crate::http::status_reason(s) + "</h1></body></html>"@
}

/// The default error handler: a small page naming the status, carrying
/// the exact content length, and answering the request's connection
/// wish — `close` when no request could be read.
pub fn error_handler(request: Option<&Request>, status_code: StatusCode, date: &str) -> (r:
    Response)
    ensures
        r@.status == status_code,
        r@.body == crate::text::bytes_of_chars(error_body_chars(status_code)),
        crate::request::view_lookup(r@.headers, "Connection"@) == Some(
            match request {
                Some(rq) => connection_wish(rq@),
                None => "close"@,
            },
        ),
        crate::request::view_lookup(r@.headers, "Content-Type"@) == Some("text/html"@),
        crate::request::view_lookup(r@.headers, "Content-Length"@) == Some(
            crate::text::dec_digits_of(r@.body.len()),
        ),
        crate::request::view_lookup(r@.headers, "Date"@) == Some(date@),
{
    proof {
        reveal_strlit("<html><body><h1>");
        reveal_strlit(" ");
        reveal_strlit("</h1></body></html>");
        lemma_status_text_bytes(status_code);
        crate::text::lemma_dec_digits_of_all_digits(crate::http::status_num(status_code) as nat);
    }
    let mut body: Vec<u8> = Vec::new();
    crate::request::push_str_bytes(&mut body, "<html><body><h1>");
    let digits = u64_to_string(status_code.code() as u64);
    crate::request::push_str_bytes(&mut body, digits.as_str());
    crate::request::push_str_bytes(&mut body, " ");
    crate::request::push_str_bytes(&mut body, status_code.reason());
    crate::request::push_str_bytes(&mut body, "</h1></body></html>");
    proof {
        assert(body@ =~= crate::text::bytes_of_chars(error_body_chars(status_code))) by {
            assert(crate::text::bytes_of_chars(error_body_chars(status_code))
                =~= crate::text::bytes_of_chars("<html><body><h1>"@) + crate::text::bytes_of_chars(
                crate::text::dec_digits_of(crate::http::status_num(status_code) as nat),
            ) + crate::text::bytes_of_chars(" "@) + crate::text::bytes_of_chars(
                crate::http::status_reason(status_code),
            ) + crate::text::bytes_of_chars("</h1></body></html>"@));
        }
    }
    let resp = Response::new(status_code).with_bytes(body);
    let ghost h0 = resp@.headers;
    let resp = match request {
        Some(rq) => resp.with_request_compatibility(rq),
        None => resp.with_header(
            ResponseHeader::Connection,
            crate::text::chars_to_string(vec!['c', 'l', 'o', 's', 'e'].as_slice()),
        ),
    };
    proof {
        reveal_strlit("close");
        assert("close"@ =~= seq!['c', 'l', 'o', 's', 'e']);
        reveal_strlit("Connection");
        reveal_strlit("Content-Type");
        assert("Connection"@.len() == 10 && "Content-Type"@.len() == 12);
        crate::response::lemma_upsert_lookup(h0, "Connection"@, match request {
            Some(rq) => connection_wish(rq@),
            None => "close"@,
        }, "Connection"@);
        crate::response::lemma_upsert_lookup(h0, "Connection"@, match request {
            Some(rq) => connection_wish(rq@),
            None => "close"@,
        }, "Content-Type"@);
    }
    resp.with_generated_headers(date)
}

/// Every status text is plain ASCII.
proof fn lemma_status_text_bytes(s: StatusCode)
    ensures
        crate::text::byte_chars(crate::http::status_reason(s)),
{
    reveal_strlit("OK");
    reveal_strlit("Moved Permanently");
    reveal_strlit("Found");
    reveal_strlit("Bad Request");
    reveal_strlit("Forbidden");
    reveal_strlit("Not Found");
    reveal_strlit("Request Timeout");
    reveal_strlit("Internal Server Error");
    reveal_strlit("Bad Gateway");
}

/// The not-found page: status 404, a fixed body, `text/html`, and the
/// request's connection wish mirrored.
pub fn not_found(request: &Request, date: &str) -> (r: Response)
    ensures
        r@.status == StatusCode::NotFound,
        r@.body == crate::text::bytes_of_chars("<h1>404 Not Found</h1>"@),
        crate::request::view_lookup(r@.headers, "Connection"@) == Some(connection_wish(request@)),
        crate::request::view_lookup(r@.headers, "Content-Type"@) == Some("text/html"@),
        crate::request::view_lookup(r@.headers, "Content-Length"@) == Some(
            crate::text::dec_digits_of(r@.body.len()),
        ),
        crate::request::view_lookup(r@.headers, "Date"@) == Some(date@),
{
    proof {
        reveal_strlit("<h1>404 Not Found</h1>");
        reveal_strlit("text/html");
        reveal_strlit("Content-Type");
        reveal_strlit("Connection");
        assert("Connection"@.len() == 10 && "Content-Type"@.len() == 12);
    }
    let mut body: Vec<u8> = Vec::new();
    crate::request::push_str_bytes(&mut body, "<h1>404 Not Found</h1>");
    let resp = Response::new(StatusCode::NotFound).with_header(
        ResponseHeader::ContentType,
        String::from_str("text/html"),
    ).with_bytes(body);
    let ghost h1 = resp@.headers;
    let resp = resp.with_request_compatibility(request);
    proof {
        crate::response::lemma_upsert_lookup(
            Seq::<(Seq<char>, Seq<char>)>::empty(),
            "Content-Type"@,
            "text/html"@,
            "Content-Type"@,
        );
        crate::response::lemma_upsert_lookup(
            Seq::<(Seq<char>, Seq<char>)>::empty(),
            "Content-Type"@,
            "text/html"@,
            "Connection"@,
        );
        crate::response::lemma_upsert_lookup(h1, "Connection"@, connection_wish(request@), "Connection"@);
        crate::response::lemma_upsert_lookup(h1, "Connection"@, connection_wish(request@), "Content-Type"@);
    }
    resp.with_generated_headers(date)
}

/// A permanent redirect to `target`, with an empty body.
pub fn redirect_response(request: &Request, target: &str, date: &str) -> (r: Response)
    ensures
        r@.status == StatusCode::MovedPermanently,
        r@.body == Seq::<u8>::empty(),
        crate::request::view_lookup(r@.headers, "Location"@) == Some(target@),
        crate::request::view_lookup(r@.headers, "Connection"@) == Some(connection_wish(request@)),
        crate::request::view_lookup(r@.headers, "Content-Length"@) == Some(
            crate::text::dec_digits_of(0),
        ),
        crate::request::view_lookup(r@.headers, "Date"@) == Some(date@),
{
    proof {
        reveal_strlit("Location");
        reveal_strlit("Connection");
        reveal_strlit("Content-Type");
        reveal_strlit("Content-Length");
        reveal_strlit("Server");
        reveal_strlit("Date");
        assert("Location"@.len() == 8 && "Connection"@.len() == 10 && "Content-Type"@.len() == 12
            && "Content-Length"@.len() == 14 && "Server"@.len() == 6 && "Date"@.len() == 4);
    }
    let resp = Response::new(StatusCode::MovedPermanently).with_header(
        ResponseHeader::Location,
        String::from_str(target),
    );
    let ghost h1 = resp@.headers;
    let resp = resp.with_request_compatibility(request);
    let ghost h2 = resp@.headers;
    let resp = resp.with_generated_headers(date);
    proof {
        crate::response::lemma_upsert_lookup(
            Seq::<(Seq<char>, Seq<char>)>::empty(),
            "Location"@,
            target@,
            "Location"@,
        );
        crate::response::lemma_upsert_lookup(
            Seq::<(Seq<char>, Seq<char>)>::empty(),
            "Location"@,
            target@,
            "Connection"@,
        );
        crate::response::lemma_upsert_lookup(h1, "Connection"@, connection_wish(request@), "Connection"@);
        crate::response::lemma_upsert_lookup(h1, "Connection"@, connection_wish(request@), "Location"@);
    }
    resp
}

/// A success page for file contents, typed by the given MIME type.
pub fn ok_file_response(request: &Request, contents: Vec<u8>, mime: String, date: &str) -> (r:
    Response)
    ensures
        r@.status == StatusCode::OK,
        r@.body == contents@,
        crate::request::view_lookup(r@.headers, "Content-Type"@) == Some(mime@),
        crate::request::view_lookup(r@.headers, "Connection"@) == Some(connection_wish(request@)),
        crate::request::view_lookup(r@.headers, "Content-Length"@) == Some(
            crate::text::dec_digits_of(contents@.len()),
        ),
        crate::request::view_lookup(r@.headers, "Date"@) == Some(date@),
{
    proof {
        reveal_strlit("Content-Type");
        reveal_strlit("Connection");
        assert("Connection"@.len() == 10 && "Content-Type"@.len() == 12);
    }
    let resp = Response::new(StatusCode::OK).with_header(ResponseHeader::ContentType, mime).with_bytes(
        contents,
    );
    let ghost h1 = resp@.headers;
    let ghost mv = resp@.headers[0].1;
    let resp = resp.with_request_compatibility(request);
    proof {
        crate::response::lemma_upsert_lookup(
            Seq::<(Seq<char>, Seq<char>)>::empty(),
            "Content-Type"@,
            mv,
            "Content-Type"@,
        );
        crate::response::lemma_upsert_lookup(
            Seq::<(Seq<char>, Seq<char>)>::empty(),
            "Content-Type"@,
            mv,
            "Connection"@,
        );
        crate::response::lemma_upsert_lookup(h1, "Connection"@, connection_wish(request@), "Connection"@);
        crate::response::lemma_upsert_lookup(h1, "Connection"@, connection_wish(request@), "Content-Type"@);
    }
    resp.with_generated_headers(date)
}

/// Serves a request from the cache, marking the entry most recently
/// used; a miss leaves everything as found.
pub fn cached_file_response(state: &mut AppState, path: &str, request: &Request, date: &str) -> (r:
    Option<Response>)
    requires
        old(state).wf(),
    ensures
        final(state).wf(),
        final(state).config == old(state).config,
        final(state).cache.limit == old(state).cache.limit,
        forall|p: Seq<char>|
            #[trigger] crate::cache::cache_lookup(final(state).cache.entries@, p)
                == crate::cache::cache_lookup(old(state).cache.entries@, p),
        match r {
            Some(resp) => crate::cache::cache_lookup(old(state).cache.entries@, path@) matches Some(
                dm,
            ) && resp@.status == StatusCode::OK && resp@.body == dm.0
                && crate::request::view_lookup(resp@.headers, "Content-Type"@) == Some(dm.1)
                && crate::request::view_lookup(resp@.headers, "Connection"@) == Some(
                connection_wish(request@),
            ),
            None => crate::cache::cache_lookup(old(state).cache.entries@, path@) is None,
        },
{
    match state.cache.get(path) {
        Some((data, mime)) => Some(ok_file_response(request, data, mime, date)),
        None => None,
    }
}

/// What the file system said about a resolved path.
pub enum FileProbe {
    FileData { contents: Vec<u8> },
    Directory { index: Option<Vec<u8>> },
    Missing,
}

/// Turns what the file system found into the response the static
/// handler owes: a file is served under its extension's MIME type and
/// cached; a directory reached without a trailing slash redirects to
/// the slashed URI; one reached with it serves its index page; anything
/// else is not found.
pub fn file_outcome(
    state: &mut AppState,
    request: &Request,
    path: &str,
    probe: FileProbe,
    date: &str,
) -> (r: Response)
    requires
        old(state).wf(),
    ensures
        final(state).wf(),
        final(state).config == old(state).config,
        final(state).cache.limit == old(state).cache.limit,
        match probe {
            FileProbe::FileData { contents } => r@.status == StatusCode::OK && r@.body == contents@
                && crate::request::view_lookup(r@.headers, "Content-Type"@) == Some(
                spec_mime(ext_of(request@.uri)),
            ) && (contents@.len() <= old(state).cache.limit ==> crate::cache::set_shape(
                old(state).cache.entries@,
                final(state).cache.entries@,
                old(state).cache.limit,
                path@,
                contents@,
                spec_mime(ext_of(request@.uri)),
            ) && crate::cache::cache_lookup(final(state).cache.entries@, path@) == Some(
                (contents@, spec_mime(ext_of(request@.uri))),
            )) && (contents@.len() > old(state).cache.limit ==> final(state).cache.entries@ == old(state).cache.entries@),
            FileProbe::Directory { index } => if request@.uri.len() == 0 || request@.uri.last()
                != '/' {
                r@.status == StatusCode::MovedPermanently && crate::request::view_lookup(
                    r@.headers,
                    "Location"@,
                ) == Some(request@.uri + "/"@) && r@.body == Seq::<u8>::empty() && final(state).cache.entries@ == old(state).cache.entries@
            } else {
                match index {
                    Some(contents) => r@.status == StatusCode::OK && r@.body == contents@
                        && crate::request::view_lookup(r@.headers, "Content-Type"@) == Some(
                        "text/html"@,
                    ) && (contents@.len() <= old(state).cache.limit
                        ==> crate::cache::cache_lookup(final(state).cache.entries@, path@) == Some(
                        (contents@, "text/html"@),
                    )),
                    None => r@.status == StatusCode::NotFound && r@.body
                        == crate::text::bytes_of_chars("<h1>404 Not Found</h1>"@) && final(state).cache.entries@ == old(state).cache.entries@,
                }
            },
            FileProbe::Missing => r@.status == StatusCode::NotFound && r@.body
                == crate::text::bytes_of_chars("<h1>404 Not Found</h1>"@) && final(state).cache.entries@ == old(state).cache.entries@,
        },
        crate::request::view_lookup(r@.headers, "Connection"@) == Some(connection_wish(request@)),
        crate::request::view_lookup(r@.headers, "Content-Length"@) == Some(
            crate::text::dec_digits_of(r@.body.len()),
        ),
        crate::request::view_lookup(r@.headers, "Date"@) == Some(date@),
{
    match probe {
        FileProbe::FileData { contents } => {
            let ext = extension_of(request.uri.as_str());
            let mime = mime_by_extension(&ext);
            let body = crate::cache::clone_bytes(&contents);
            state.cache.set(path, contents, mime.clone());
            ok_file_response(request, body, mime, date)
        },
        FileProbe::Directory { index } => {
            let uchars = crate::wildcard::str_chars(request.uri.as_str());
            let ulen = uchars.len();
            let slashed = ulen > 0 && uchars[ulen - 1] == '/';
            if !slashed {
                let mut loc = request.uri.clone();
                loc.push('/');
                proof {
                    reveal_strlit("/");
                    assert(loc@ =~= request@.uri + "/"@);
                }
                redirect_response(request, loc.as_str(), date)
            } else {
                match index {
                    Some(contents) => {
                        let mime = String::from_str("text/html");
                        let body = crate::cache::clone_bytes(&contents);
                        state.cache.set(path, contents, mime.clone());
                        ok_file_response(request, body, mime, date)
                    },
                    None => not_found(request, date),
                }
            }
        },
        FileProbe::Missing => not_found(request, date),
    }
}

/// Where the colon stands in a `host:port` target.
pub open spec fn colon_pos(t: Seq<char>, from: int) -> Option<int>
    decreases t.len() - from when 0 <= from
{
    if from >= t.len() {
        None
    } else if t[from] == ':' {
        Some(from)
    } else {
        colon_pos(t, from + 1)
    }
}

/// The host part of a `host:port` target: everything before the first
/// colon, or the whole target when it names no port.
pub open spec fn spec_host_of(t: Seq<char>) -> Seq<char> {
    match colon_pos(t, 0) {
        Some(i) => t.take(i),
        None => t,
    }
}

/// Cuts the host out of a backend target.
pub fn host_of(target: &str) -> (r: String)
    ensures
        r@ == spec_host_of(target@),
{
    let cs = crate::wildcard::str_chars(target);
    let n = cs.len();
    let mut i: usize = 0;
    while i < n && cs[i] != ':'
        invariant
            cs@ == target@,
            n == cs@.len(),
            0 <= i <= n,
            colon_pos(target@, 0) == colon_pos(target@, i as int),
        decreases n - i,
    {
        i += 1;
    }
    let head = crate::wildcard::chars_range(cs.as_slice(), 0, i);
    proof {
        if i < n {
            assert(colon_pos(target@, i as int) == Some(i as int));
        }
        assert(head@ =~= target@.take(i as int));
    }
    crate::text::chars_to_string(head.as_slice())
}

/// What the connection worker must do next for one request.
pub enum WorkerStep {
    Close,
    Respond { response: Response, keep: bool },
    FetchFile { request: Request, path: String, keep: bool },
    ConnectProxy { request: Request, target: String, wire: Vec<u8>, keep: bool },
    OpenTunnel { request: Request, backend: Option<String>, wire: Vec<u8> },
}

/// The not-found answer, as a step.
pub open spec fn respond_not_found(rv: crate::request::ReqView, keep_wish: bool, r: WorkerStep) -> bool {
    r matches WorkerStep::Respond { response, keep } && keep == keep_wish && response@.status
        == StatusCode::NotFound && response@.body == crate::text::bytes_of_chars(
        "<h1>404 Not Found</h1>"@,
    ) && crate::request::view_lookup(response@.headers, "Connection"@) == Some(connection_wish(rv))
}

/// Serving a resolved path: the cache answers what it holds, marked with
/// its stored type; a miss hands the path back to be fetched.
pub open spec fn serve_path_step(
    pre: AppState,
    rv: crate::request::ReqView,
    path: Seq<char>,
    keep_wish: bool,
    r: WorkerStep,
) -> bool {
    match cache_lookup(pre.cache.entries@, path) {
        Some(dm) => r matches WorkerStep::Respond { response, keep } && keep == keep_wish
            && response@.status == StatusCode::OK && response@.body == dm.0
            && crate::request::view_lookup(response@.headers, "Content-Type"@) == Some(dm.1)
            && crate::request::view_lookup(response@.headers, "Connection"@) == Some(
            connection_wish(rv),
        ),
        None => r matches WorkerStep::FetchFile { request, path: p, keep } && keep == keep_wish
            && p@ == path && request@ == rv,
    }
}

/// What one worker turn decides for a given reading of the stream: the
/// step that parse outcome leads to from the state as it stood.  A dead
/// stream closes; malformed bytes answer `400` and close; a blacklisted
/// peer under the `Forbidden` mode gets `403`; otherwise the first
/// matching route decides, and every step's `keep` flag follows the
/// request's keep-alive wish.  The outcome stands for what the stream
/// yielded — the one thing a contract over an unspecified byte source
/// cannot pin down; every decision made of it is pinned here.
pub open spec fn step_of(
    pre: AppState,
    outcome: Result<crate::request::ReqView, RequestError>,
    entropy: u64,
    r: WorkerStep,
) -> bool {
    match outcome {
        Err(RequestError::Stream) => r is Close,
        Err(_) => r matches WorkerStep::Respond { response, keep } && !keep && response@.status
            == StatusCode::BadRequest && response@.body == crate::text::bytes_of_chars(
            error_body_chars(StatusCode::BadRequest),
        ) && crate::request::view_lookup(response@.headers, "Connection"@) == Some("close"@),
        Ok(rv) => {
            let keep_wish = crate::response::spec_keep_alive(rv);
            if pre.config.blacklist.mode == BlacklistMode::Forbidden && ip_blacklisted(
                pre.config,
                spec_host_of(rv.address),
            ) {
                r matches WorkerStep::Respond { response, keep } && keep == keep_wish
                    && response@.status == StatusCode::Forbidden && response@.body
                    == crate::text::bytes_of_chars(error_body_chars(StatusCode::Forbidden))
                    && crate::request::view_lookup(response@.headers, "Connection"@) == Some(
                    connection_wish(rv),
                )
            } else if crate::request::view_lookup(rv.headers, "upgrade"@) is Some {
                r matches WorkerStep::OpenTunnel { request, backend, wire } && request@ == rv
                    && wire@ == crate::request::request_bytes(rv) && (match backend {
                    Some(b) => pre.config.websocket_proxy matches Some(c) && b@ == c@,
                    None => pre.config.websocket_proxy is None,
                })
            } else {
                match first_route(pre.config.routes@, rv.uri) {
                    None => respond_not_found(rv, keep_wish, r),
                    Some(i) => match pre.config.routes@[i] {
                        RouteConfig::Redirect { target, .. } => r matches WorkerStep::Respond {
                            response,
                            keep,
                        } && keep == keep_wish && response@.status == StatusCode::MovedPermanently
                            && crate::request::view_lookup(response@.headers, "Location"@) == Some(
                            target@,
                        ) && response@.body == Seq::<u8>::empty()
                            && crate::request::view_lookup(response@.headers, "Connection"@)
                            == Some(connection_wish(rv)),
                        RouteConfig::File { file, .. } => serve_path_step(
                            pre,
                            rv,
                            file@,
                            keep_wish,
                            r,
                        ),
                        RouteConfig::Directory { directory, .. } => if has_dotdot(rv.uri) {
                            respond_not_found(rv, keep_wish, r)
                        } else {
                            serve_path_step(pre, rv, directory@ + rv.uri, keep_wish, r)
                        },
                        RouteConfig::Proxy { load_balancer, .. } => r
                            matches WorkerStep::ConnectProxy { request, target, wire, keep } && {
                            &&& keep == keep_wish
                            &&& (load_balancer.mode == LoadBalancerMode::RoundRobin ==> target@
                                == load_balancer.targets@[load_balancer.cursor as int]@)
                            &&& (load_balancer.mode == LoadBalancerMode::Random ==> target@
                                == load_balancer.targets@[(entropy % (load_balancer.targets@.len()
                                as u64)) as int]@)
                            &&& wire@ == crate::request::request_bytes(request@)
                            &&& request@.method == rv.method
                            &&& request@.uri == rv.uri
                            &&& request@.version == rv.version
                            &&& request@.content == rv.content
                            &&& request@.address == rv.address
                            &&& (crate::text::byte_chars(spec_host_of(target@))
                                ==> request@.headers == crate::request::upsert_hdr(
                                rv.headers,
                                "host"@,
                                spec_host_of(target@),
                            ))
                            &&& (!crate::text::byte_chars(spec_host_of(target@))
                                ==> request@.headers == rv.headers)
                        },
                    },
                }
            }
        },
    }
}

/// One turn of the per-connection loop: read a request, decide.  The
/// result is exactly what `step_of` says for the bytes the stream gave;
/// file-system and upstream work is handed back as a step for the
/// caller to perform, the forwarded wire bytes carrying the `Host` of
/// the chosen backend.
pub fn handle_connection_step<T: crate::stream::ByteSource>(
    stream: &mut T,
    state: &mut AppState,
    address: &str,
    entropy: u64,
    date: &str,
    max_len: usize,
) -> (r: WorkerStep)
    requires
        old(state).wf(),
    ensures
        final(state).wf(),
        final(state).config.address == old(state).config.address,
        final(state).config.port == old(state).config.port,
        final(state).config.threads == old(state).config.threads,
        final(state).config.cache_limit == old(state).config.cache_limit,
        final(state).config.websocket_proxy == old(state).config.websocket_proxy,
        final(state).config.blacklist == old(state).config.blacklist,
        final(state).config.routes@.len() == old(state).config.routes@.len(),
        forall|j: int|
            0 <= j < old(state).config.routes@.len() ==> route_frame(
                #[trigger] old(state).config.routes@[j],
                final(state).config.routes@[j],
            ),
        exists|outcome: Result<crate::request::ReqView, RequestError>|
            #[trigger] step_of(*old(state), outcome, entropy, r) && (outcome matches Ok(rv)
                ==> crate::request::canonical_req(rv) && rv.address == address@),
        r is Close ==> *final(state) == *old(state),
{
    let parsed = Request::from_stream(stream, address, max_len);
    let ghost outcome: Result<crate::request::ReqView, RequestError> = match parsed {
        Ok(ref req) => Ok(req@),
        Err(e) => Err(e),
    };
    let mut request = match parsed {
        Err(RequestError::Stream) => {
            proof {
                assert(step_of(*old(state), outcome, entropy, WorkerStep::Close));
            }
            return WorkerStep::Close;
        },
        Err(_) => {
            let response = error_handler(None, StatusCode::BadRequest, date);
            let step = WorkerStep::Respond { response: response, keep: false };
            proof {
                assert(step_of(*old(state), outcome, entropy, step));
            }
            return step;
        },
        Ok(request) => request,
    };
    let ghost rv = request@;
    let keep = keep_alive_requested(&request);
    let ghost rv0 = request@;
    let peer_ip = host_of(request.address.as_str());
    if matches!(state.config.blacklist.mode, BlacklistMode::Forbidden) && ip_blacklisted_exec(
        &state.config,
        peer_ip.as_str(),
    ) {
        let response = error_handler(Some(&request), StatusCode::Forbidden, date);
        let step = WorkerStep::Respond { response: response, keep: keep };
        proof {
            assert(step_of(*old(state), outcome, entropy, step));
        }
        return step;
    }
    // An upgrade goes to the WebSocket tunnel, whatever the routes say.
    if request.header(&crate::http::RequestHeader::Upgrade).is_some() {
        proof {
            crate::request::lemma_canonical_serialisable(rv0);
        }
        let wire = request.to_bytes();
        let backend = match &state.config.websocket_proxy {
            Some(b) => Some(b.clone()),
            None => None,
        };
        let step = WorkerStep::OpenTunnel { request: request, backend: backend, wire: wire };
        proof {
            assert(step_of(*old(state), outcome, entropy, step));
        }
        return step;
    }
    let action = dispatch(state, request.uri.as_str(), entropy);
    match action {
        RouteAction::NotFound => {
            let step = WorkerStep::Respond { response: not_found(&request, date), keep: keep };
            proof {
                assert(step_of(*old(state), outcome, entropy, step));
            }
            step
        },
        RouteAction::RedirectTo { target } => {
            let step = WorkerStep::Respond {
                response: redirect_response(&request, target.as_str(), date),
                keep: keep,
            };
            proof {
                assert(step_of(*old(state), outcome, entropy, step));
            }
            step
        },
        RouteAction::ServeFile { path } => {
            let step = match cached_file_response(state, path.as_str(), &request, date) {
                Some(resp) => WorkerStep::Respond { response: resp, keep: keep },
                None => WorkerStep::FetchFile { request: request, path: path, keep: keep },
            };
            proof {
                assert(step_of(*old(state), outcome, entropy, step));
            }
            step
        },
        RouteAction::ServeDirectory { path } => {
            let step = match cached_file_response(state, path.as_str(), &request, date) {
                Some(resp) => WorkerStep::Respond { response: resp, keep: keep },
                None => WorkerStep::FetchFile { request: request, path: path, keep: keep },
            };
            proof {
                assert(step_of(*old(state), outcome, entropy, step));
            }
            step
        },
        RouteAction::ProxyTo { target } => {
            // Forward with the Host header naming the chosen backend.
            let host = host_of(target.as_str());
            if crate::text::str_all_bytes(host.as_str()) {
                proof {
                    reveal_strlit("host");
                    crate::request::lemma_canonical_serialisable(rv);
                    crate::request::lemma_upsert_bytes(rv.headers, "host"@, host@);
                }
                crate::request::set_req_header(
                    &mut request.headers,
                    crate::http::RequestHeader::Host,
                    host,
                );
                proof {
                    assert forall|k: int|
                        0 <= k < request.headers@.len() implies match (
                    #[trigger] request.headers@[k]).0 {
                        crate::http::RequestHeader::Custom(cs) => !crate::http::is_known_req_name(
                            cs@,
                        ),
                        _ => true,
                    } by {}
                    assert forall|i: int|
                        0 <= i < request@.headers.len() implies crate::text::byte_chars(
                        (#[trigger] request@.headers[i]).0,
                    ) && crate::text::byte_chars(request@.headers[i].1) by {}
                }
            } else {
                proof {
                    crate::request::lemma_canonical_serialisable(rv);
                }
            }
            let wire = request.to_bytes();
            let step = WorkerStep::ConnectProxy {
                request: request,
                target: target,
                wire: wire,
                keep: keep,
            };
            proof {
                assert(step_of(*old(state), outcome, entropy, step));
            }
            step
        },
    }
}

/// The string a leaf of the flattened map holds.
pub open spec fn leaf_text(n: crate::config::ConfigNode) -> Option<Seq<char>> {
    match n {
        crate::config::ConfigNode::Number(_, v) => Some(v@),
        crate::config::ConfigNode::Boolean(_, v) => Some(v@),
        crate::config::ConfigNode::Text(_, v) => Some(v@),
        _ => None,
    }
}

/// The flattened settings of the tree's top level.
pub open spec fn tree_cfg_map(tree: crate::config::ConfigNode) -> Seq<
    (Seq<char>, crate::config::ConfigNode),
> {
    match tree {
        crate::config::ConfigNode::Section(_, v) => crate::config::spec_flatten_vec(
            v,
            0,
            Seq::empty(),
            Seq::empty(),
        ),
        _ => Seq::empty(),
    }
}

/// The string stored under a dotted key, where the key holds a leaf.
pub open spec fn opt_value(
    m: Seq<(Seq<char>, crate::config::ConfigNode)>,
    key: Seq<char>,
) -> Option<Seq<char>> {
    match crate::config::cfg_lookup(m, key) {
        Some(n) => leaf_text(n),
        None => None,
    }
}

/// A numeric option: the key's digits, or the default when the key is
/// absent or unreadable.
pub open spec fn num_option(
    m: Seq<(Seq<char>, crate::config::ConfigNode)>,
    key: Seq<char>,
    default: u64,
) -> u64 {
    match opt_value(m, key) {
        Some(s) => if crate::text::all_digits(s) && crate::text::dec_value(s) <= u64::MAX {
            crate::text::dec_value(s) as u64
        } else {
            default
        },
        None => default,
    }
}

/// Where the comma after `from` stands.
pub open spec fn comma_pos(s: Seq<char>, from: int) -> Option<int>
    decreases s.len() - from when 0 <= from
{
    if from >= s.len() {
        None
    } else if s[from] == ',' {
        Some(from)
    } else {
        comma_pos(s, from + 1)
    }
}

proof fn lemma_comma_pos_bounds(s: Seq<char>, from: int)
    requires
        0 <= from,
    ensures
        match comma_pos(s, from) {
            Some(i) => from <= i < s.len() && s[i] == ',',
            None => true,
        },
    decreases s.len() - from,
{
    if from < s.len() && s[from] != ',' {
        lemma_comma_pos_bounds(s, from + 1);
    }
}

#[via_fn]
proof fn spec_split_commas_decreases(s: Seq<char>, pos: int) {
    lemma_comma_pos_bounds(s, pos);
}

/// A comma-separated value cut into its parts.
pub open spec fn spec_split_commas(s: Seq<char>, pos: int) -> Seq<Seq<char>>
    decreases s.len() - pos when 0 <= pos <= s.len() via spec_split_commas_decreases
{
    match comma_pos(s, pos) {
        None => seq![s.subrange(pos, s.len() as int)],
        Some(i) => seq![s.subrange(pos, i)] + spec_split_commas(s, i + 1),
    }
}

/// Splits a comma-separated value into its parts.
#[verifier::loop_isolation(false)]
fn split_commas(s: &str) -> (r: Vec<String>)
    ensures
        r@.len() == spec_split_commas(s@, 0).len(),
        forall|k: int| 0 <= k < r@.len() ==> (#[trigger] r@[k])@ == spec_split_commas(s@, 0)[k],
        r@.len() >= 1,
{
    let cs = crate::wildcard::str_chars(s);
    let n = cs.len();
    let ghost gp = spec_split_commas(s@, 0);
    let mut out: Vec<String> = Vec::new();
    let mut begin: usize = 0;
    let mut i: usize = 0;
    proof {
        assert(gp =~= out@.map(|_q: int, l: String| l@) + spec_split_commas(s@, 0));
    }
    while i < n
        invariant
            0 <= begin <= i <= n,
            gp == out@.map(|_q: int, l: String| l@) + spec_split_commas(s@, begin as int),
            forall|k: int| begin <= k < i ==> cs@[k] != ',',
            comma_pos(s@, begin as int) == comma_pos(s@, i as int),
        decreases n - i,
    {
        if cs[i] == ',' {
            let piece = crate::wildcard::chars_range(cs.as_slice(), begin, i);
            let ps = crate::text::chars_to_string(piece.as_slice());
            let ghost pre = out@;
            out.push(ps);
            proof {
                assert(comma_pos(s@, i as int) == Some(i as int));
                assert(spec_split_commas(s@, begin as int) =~= seq![
                    s@.subrange(begin as int, i as int),
                ] + spec_split_commas(s@, i + 1));
                assert(out@.map(|_q: int, l: String| l@) =~= pre.map(|_q: int, l: String| l@)
                    + seq![s@.subrange(begin as int, i as int)]);
            }
            begin = i + 1;
        }
        i += 1;
    }
    let piece = crate::wildcard::chars_range(cs.as_slice(), begin, n);
    let ps = crate::text::chars_to_string(piece.as_slice());
    let ghost pre = out@;
    out.push(ps);
    proof {
        assert(comma_pos(s@, begin as int) is None);
        assert(spec_split_commas(s@, begin as int) =~= seq![s@.subrange(begin as int, n as int)]);
        assert(out@.map(|_q: int, l: String| l@) =~= pre.map(|_q: int, l: String| l@) + seq![
            s@.subrange(begin as int, n as int),
        ]);
        assert(gp =~= out@.map(|_q: int, l: String| l@));
        assert forall|k: int| 0 <= k < out@.len() implies (#[trigger] out@[k])@ == gp[k] by {
            assert(out@.map(|_q: int, l: String| l@)[k] == out@[k]@);
        }
    }
    out
}

/// Reads the value stored under `key` in a flattened map.
fn map_get(map: &Vec<(String, crate::config::ConfigNode)>, key: &str) -> (r: Option<String>)
    ensures
        match r {
            Some(s) => opt_value(crate::config::cfg_view(map@), key@) == Some(s@),
            None => opt_value(crate::config::cfg_view(map@), key@) is None,
        },
{
    let ghost mv = crate::config::cfg_view(map@);
    let mut i: usize = 0;
    proof {
        assert(mv.skip(0) =~= mv);
    }
    while i < map.len()
        invariant
            0 <= i <= map@.len(),
            mv == crate::config::cfg_view(map@),
            crate::config::cfg_lookup(mv, key@) == crate::config::cfg_lookup(
                mv.skip(i as int),
                key@,
            ),
        decreases map@.len() - i,
    {
        proof {
            assert(mv.skip(i as int)[0] == mv[i as int]);
            assert(mv[i as int] == (map@[i as int].0@, map@[i as int].1));
            assert(mv.skip(i as int).drop_first() =~= mv.skip(i + 1));
        }
        if str_eq(&map[i].0, key) {
            return map[i].1.get_string();
        }
        i += 1;
    }
    proof {
        assert(mv.skip(map@.len() as int) =~= Seq::<(Seq<char>, crate::config::ConfigNode)>::empty());
    }
    None
}

/// Whether a route section names any handler at all.
pub open spec fn entry_makes_route(entry: Seq<(Seq<char>, crate::config::ConfigNode)>) -> bool {
    ||| opt_value(entry, "file"@) is Some
    ||| opt_value(entry, "directory"@) is Some
    ||| opt_value(entry, "proxy"@) is Some
    ||| opt_value(entry, "target"@) is Some
}

/// The route a section's settings build: the first of `file`,
/// `directory`, `proxy`, `target` present decides its kind; proxy
/// backends are the comma-split list, walked round-robin unless
/// `load_balancer` says `random`.
pub open spec fn route_of_entry(
    pattern: Seq<char>,
    entry: Seq<(Seq<char>, crate::config::ConfigNode)>,
    rc: RouteConfig,
) -> bool {
    if opt_value(entry, "file"@) is Some {
        rc matches RouteConfig::File { matches, file } && matches@ == pattern && Some(file@)
            == opt_value(entry, "file"@)
    } else if opt_value(entry, "directory"@) is Some {
        rc matches RouteConfig::Directory { matches, directory } && matches@ == pattern && Some(
            directory@,
        ) == opt_value(entry, "directory"@)
    } else if opt_value(entry, "proxy"@) is Some {
        rc matches RouteConfig::Proxy { matches, load_balancer } && matches@ == pattern && {
            let parts = spec_split_commas(opt_value(entry, "proxy"@)->Some_0, 0);
            &&& load_balancer.cursor == 0
            &&& load_balancer.targets@.len() == parts.len()
            &&& forall|k: int|
                0 <= k < parts.len() ==> (#[trigger] load_balancer.targets@[k])@ == parts[k]
            &&& load_balancer.mode == (if opt_value(entry, "load_balancer"@) == Some("random"@) {
                LoadBalancerMode::Random
            } else {
                LoadBalancerMode::RoundRobin
            })
        }
    } else if opt_value(entry, "target"@) is Some {
        rc matches RouteConfig::Redirect { matches, target } && matches@ == pattern && Some(
            target@,
        ) == opt_value(entry, "target"@)
    } else {
        false
    }
}

/// The route sections that name a handler, in order.
pub open spec fn routes_kept(
    rs: Seq<(Seq<char>, Seq<(Seq<char>, crate::config::ConfigNode)>)>,
) -> Seq<(Seq<char>, Seq<(Seq<char>, crate::config::ConfigNode)>)>
    decreases rs,
{
    if rs.len() == 0 {
        Seq::empty()
    } else {
        let rest = routes_kept(rs.drop_first());
        if entry_makes_route(rs[0].1) {
            seq![rs[0]] + rest
        } else {
            rest
        }
    }
}

/// Keeping one more section appends it when it names a handler.
proof fn lemma_routes_kept_snoc(
    rs: Seq<(Seq<char>, Seq<(Seq<char>, crate::config::ConfigNode)>)>,
    x: (Seq<char>, Seq<(Seq<char>, crate::config::ConfigNode)>),
)
    ensures
        routes_kept(rs.push(x)) == (if entry_makes_route(x.1) {
            routes_kept(rs).push(x)
        } else {
            routes_kept(rs)
        }),
    decreases rs,
{
    let empty_rs = Seq::<(Seq<char>, Seq<(Seq<char>, crate::config::ConfigNode)>)>::empty();
    if rs.len() == 0 {
        assert(rs.push(x)[0] == x);
        assert(rs.push(x).drop_first() =~= empty_rs);
        assert(routes_kept(empty_rs) =~= Seq::<
            (Seq<char>, Seq<(Seq<char>, crate::config::ConfigNode)>),
        >::empty());
        if entry_makes_route(x.1) {
            assert(routes_kept(rs.push(x)) =~= routes_kept(rs).push(x));
        } else {
            assert(routes_kept(rs.push(x)) =~= routes_kept(rs));
        }
    } else {
        assert(rs.push(x)[0] == rs[0]);
        assert(rs.push(x).drop_first() =~= rs.drop_first().push(x));
        lemma_routes_kept_snoc(rs.drop_first(), x);
        if entry_makes_route(x.1) {
            if entry_makes_route(rs[0].1) {
                assert(routes_kept(rs.push(x)) == seq![rs[0]] + routes_kept(rs.drop_first()).push(
                    x,
                ));
                assert((seq![rs[0]] + routes_kept(rs.drop_first())).push(x) =~= seq![rs[0]]
                    + routes_kept(rs.drop_first()).push(x));
            }
            assert(routes_kept(rs.push(x)) =~= routes_kept(rs).push(x));
        } else {
            assert(routes_kept(rs.push(x)) =~= routes_kept(rs));
        }
    }
}

/// The listening port an option names: within range, or the default.
pub open spec fn spec_port(m: Seq<(Seq<char>, crate::config::ConfigNode)>) -> u16 {
    match opt_value(m, "port"@) {
        Some(s) => if crate::text::all_digits(s) && crate::text::dec_value(s) <= 65535 {
            crate::text::dec_value(s) as u16
        } else {
            80
        },
        None => 80,
    }
}

/// Projects a parsed configuration tree into the typed configuration:
/// each recognised dotted key is read with its default — the address,
/// the port, the worker count, the cache budget, the WebSocket backend,
/// the blacklist mode — and each route section becomes a route table
/// entry in order, its kind by the first of `file`, `directory`,
/// `proxy`, `target` it names.  The blacklist's addresses are not read
/// here: they live in a separate file that the surrounding program
/// loads.
#[verifier::loop_isolation(false)]
pub fn build_config(tree: &crate::config::ConfigNode) -> (r: Config)
    ensures
        r.wf(),
        r.address@ == (match opt_value(tree_cfg_map(*tree), "address"@) {
            Some(a) => a,
            None => "0.0.0.0"@,
        }),
        r.port == spec_port(tree_cfg_map(*tree)),
        r.threads == num_option(tree_cfg_map(*tree), "threads"@, 32),
        r.cache_limit == num_option(tree_cfg_map(*tree), "cache.limit"@, 0),
        match r.websocket_proxy {
            Some(s) => opt_value(tree_cfg_map(*tree), "websocket.proxy"@) == Some(s@),
            None => opt_value(tree_cfg_map(*tree), "websocket.proxy"@) is None,
        },
        r.blacklist.mode == (if opt_value(tree_cfg_map(*tree), "blacklist.mode"@) == Some(
            "forbidden"@,
        ) {
            BlacklistMode::Forbidden
        } else {
            BlacklistMode::Block
        }),
        r.blacklist.list@.len() == 0,
        r.routes@.len() == routes_kept(spec_routes(*tree)).len(),
        forall|k: int|
            0 <= k < r.routes@.len() ==> route_of_entry(
                routes_kept(spec_routes(*tree))[k].0,
                routes_kept(spec_routes(*tree))[k].1,
                #[trigger] r.routes@[k],
            ),
{
    let map = match tree {
        crate::config::ConfigNode::Section(_, children) => crate::config::flatten_all(children),
        _ => Vec::new(),
    };
    proof {
        assert(crate::config::cfg_view(map@) == tree_cfg_map(*tree)) by {
            match *tree {
                crate::config::ConfigNode::Section(_, _) => {},
                _ => {
                    assert(crate::config::cfg_view(map@) =~= Seq::<
                        (Seq<char>, crate::config::ConfigNode),
                    >::empty());
                },
            }
        }
    }
    let ghost m = tree_cfg_map(*tree);
    let address = match map_get(&map, "address") {
        Some(a) => a,
        None => String::from_str("0.0.0.0"),
    };
    let port: u16 = match map_get(&map, "port") {
        Some(p) => {
            let cs = crate::wildcard::str_chars(p.as_str());
            match crate::text::parse_u64_digits(cs.as_slice()) {
                Some(n) => if n <= 65535 {
                    n as u16
                } else {
                    80
                },
                None => 80,
            }
        },
        None => 80,
    };
    let threads: u64 = match map_get(&map, "threads") {
        Some(t) => {
            let cs = crate::wildcard::str_chars(t.as_str());
            match crate::text::parse_u64_digits(cs.as_slice()) {
                Some(n) => n,
                None => 32,
            }
        },
        None => 32,
    };
    let cache_limit: u64 = match map_get(&map, "cache.limit") {
        Some(c) => {
            let cs = crate::wildcard::str_chars(c.as_str());
            match crate::text::parse_u64_digits(cs.as_slice()) {
                Some(n) => n,
                None => 0,
            }
        },
        None => 0,
    };
    let websocket_proxy = map_get(&map, "websocket.proxy");
    let blacklist_mode = match map_get(&map, "blacklist.mode") {
        Some(bm) => if str_eq(&bm, "forbidden") {
            BlacklistMode::Forbidden
        } else {
            BlacklistMode::Block
        },
        None => BlacklistMode::Block,
    };

    let raw_routes = tree.get_routes();
    let ghost rs = spec_routes(*tree);
    let mut routes: Vec<RouteConfig> = Vec::new();
    let mut i: usize = 0;
    proof {
        assert(rs.take(0) =~= Seq::<
            (Seq<char>, Seq<(Seq<char>, crate::config::ConfigNode)>),
        >::empty());
        assert(routes_kept(rs.take(0)) =~= Seq::<
            (Seq<char>, Seq<(Seq<char>, crate::config::ConfigNode)>),
        >::empty());
    }
    while i < raw_routes.len()
        invariant
            0 <= i <= raw_routes@.len(),
            routes@.len() == routes_kept(rs.take(i as int)).len(),
            forall|k: int|
                0 <= k < routes@.len() ==> route_of_entry(
                    routes_kept(rs.take(i as int))[k].0,
                    routes_kept(rs.take(i as int))[k].1,
                    #[trigger] routes@[k],
                ),
            forall|k: int|
                0 <= k < routes@.len() ==> match #[trigger] routes@[k] {
                    RouteConfig::Proxy { load_balancer, .. } => load_balancer.wf()
                        && load_balancer.targets@.len() > 0,
                    _ => true,
                },
        decreases raw_routes@.len() - i,
    {
        let ghost x = rs[i as int];
        proof {
            assert(crate::config::listing_view(raw_routes@)[i as int] == (
                raw_routes@[i as int].0@,
                crate::config::cfg_view(raw_routes@[i as int].1@),
            ));
            assert(rs.take(i + 1) =~= rs.take(i as int).push(x));
            lemma_routes_kept_snoc(rs.take(i as int), x);
        }
        let pattern = raw_routes[i].0.clone();
        let entry = &raw_routes[i].1;
        let ghost kept_now = routes_kept(rs.take(i as int));
        if let Some(file) = map_get(entry, "file") {
            routes.push(RouteConfig::File { matches: pattern, file: file });
            proof {
                assert(route_of_entry(x.0, x.1, routes@.last()));
            }
        } else if let Some(directory) = map_get(entry, "directory") {
            routes.push(RouteConfig::Directory { matches: pattern, directory: directory });
            proof {
                assert(route_of_entry(x.0, x.1, routes@.last()));
            }
        } else if let Some(proxy) = map_get(entry, "proxy") {
            let targets = split_commas(proxy.as_str());
            let mode = match map_get(entry, "load_balancer") {
                Some(lbm) => if str_eq(&lbm, "random") {
                    LoadBalancerMode::Random
                } else {
                    LoadBalancerMode::RoundRobin
                },
                None => LoadBalancerMode::RoundRobin,
            };
            let lb = LoadBalancer::new(targets, mode);
            routes.push(RouteConfig::Proxy { matches: pattern, load_balancer: lb });
            proof {
                assert(route_of_entry(x.0, x.1, routes@.last()));
            }
        } else if let Some(target) = map_get(entry, "target") {
            routes.push(RouteConfig::Redirect { matches: pattern, target: target });
            proof {
                assert(route_of_entry(x.0, x.1, routes@.last()));
            }
        } else {
            proof {
                assert(!entry_makes_route(x.1));
            }
        }
        i += 1;
    }
    proof {
        assert(rs.take(rs.len() as int) =~= rs);
    }
    Config {
        address: address,
        port: port,
        threads: threads,
        cache_limit: cache_limit,
        websocket_proxy: websocket_proxy,
        blacklist: Blacklist { mode: blacklist_mode, list: Vec::new() },
        routes: routes,
    }
}

} // verus!