//! The server's decisions: admission, dispatch, the static handler's
//! outcomes, the error pages, and the keep-alive lifecycle.

use humphrey::balancer::{LoadBalancer, LoadBalancerMode};
use humphrey::http::{ResponseHeader, StatusCode};
use humphrey::request::Request;
use humphrey::response::get_resp_header;
use humphrey::server::{
    build_config, dispatch, error_handler, file_outcome, handle_connection_step,
    keep_alive_requested, verify_connection, AppState, Blacklist, BlacklistMode, Config, FileProbe,
    RouteAction, RouteConfig, WorkerStep,
};
use humphrey::stream::BufSource;

const DATE: &str = "Thu, 01 Jan 1970 00:00:00 GMT";

fn base_config(routes: Vec<RouteConfig>) -> Config {
    Config {
        address: "0.0.0.0".to_string(),
        port: 80,
        threads: 4,
        cache_limit: 128,
        websocket_proxy: None,
        blacklist: Blacklist { mode: BlacklistMode::Block, list: Vec::new() },
        routes,
    }
}

fn parse(data: &[u8]) -> Request {
    Request::parse(data, "1.2.3.4:5678").unwrap()
}

fn header(resp: &humphrey::response::Response, name: ResponseHeader) -> Option<String> {
    get_resp_header(&resp.headers, &name)
}

#[test]
fn blacklisted_peer_is_refused_in_block_mode() {
    let mut config = base_config(Vec::new());
    config.blacklist.list.push("9.9.9.9".to_string());
    let bad = "9.9.9.9".to_string();
    let good = "8.8.8.8".to_string();
    assert!(!verify_connection(&config, Some(&bad)));
    assert!(verify_connection(&config, Some(&good)));
    assert!(!verify_connection(&config, None));
    config.blacklist.mode = BlacklistMode::Forbidden;
    assert!(verify_connection(&config, Some(&bad)));
}

#[test]
fn dispatch_takes_the_first_matching_route() {
    let routes = vec![
        RouteConfig::Redirect { matches: "/old/*".to_string(), target: "/new".to_string() },
        RouteConfig::File { matches: "/*".to_string(), file: "./index.html".to_string() },
        RouteConfig::File { matches: "/old/a".to_string(), file: "./shadowed".to_string() },
    ];
    let mut state = AppState::from_config(base_config(routes));
    match dispatch(&mut state, "/old/a", 0) {
        RouteAction::RedirectTo { target } => assert_eq!(target, "/new".to_string()),
        _ => panic!("expected the redirect route to win"),
    }
    match dispatch(&mut state, "/other", 0) {
        RouteAction::ServeFile { path } => assert_eq!(path, "./index.html".to_string()),
        _ => panic!("expected the catch-all file route"),
    }
}

#[test]
fn dispatch_resolves_directories_and_rejects_escapes() {
    let routes = vec![RouteConfig::Directory {
        matches: "/*".to_string(),
        directory: "./public".to_string(),
    }];
    let mut state = AppState::from_config(base_config(routes));
    match dispatch(&mut state, "/docs/a.txt", 0) {
        RouteAction::ServeDirectory { path } => assert_eq!(path, "./public/docs/a.txt".to_string()),
        _ => panic!("expected a directory resolution"),
    }
    assert!(matches!(dispatch(&mut state, "/../secret", 0), RouteAction::NotFound));
    assert!(matches!(dispatch(&mut state, "/notes/..", 0), RouteAction::NotFound));
    // Dots inside a name are no escape.
    match dispatch(&mut state, "/a..b", 0) {
        RouteAction::ServeDirectory { path } => assert_eq!(path, "./public/a..b".to_string()),
        _ => panic!("expected a dotted name to resolve"),
    }
}

#[test]
fn dispatch_rotates_proxy_backends() {
    let lb = LoadBalancer::new(
        vec!["a:1".to_string(), "b:2".to_string()],
        LoadBalancerMode::RoundRobin,
    );
    let routes = vec![RouteConfig::Proxy { matches: "/api/*".to_string(), load_balancer: lb }];
    let mut state = AppState::from_config(base_config(routes));
    let pick = |state: &mut AppState| match dispatch(state, "/api/x", 0) {
        RouteAction::ProxyTo { target } => target,
        _ => panic!("expected a proxy route"),
    };
    assert_eq!(pick(&mut state), "a:1".to_string());
    assert_eq!(pick(&mut state), "b:2".to_string());
    assert_eq!(pick(&mut state), "a:1".to_string());
}

#[test]
fn static_hit_serves_the_file_with_its_type_and_length() {
    let routes = vec![RouteConfig::File {
        matches: "/*".to_string(),
        file: "./public/hello.html".to_string(),
    }];
    let mut state = AppState::from_config(base_config(routes));
    let request = parse(b"GET /hello.html HTTP/1.1\r\nHost: x\r\n\r\n");
    let resp = file_outcome(
        &mut state,
        &request,
        "./public/hello.html",
        FileProbe::FileData { contents: b"hi".to_vec() },
        DATE,
    );
    assert_eq!(resp.status, StatusCode::OK);
    assert_eq!(resp.status.code(), 200);
    assert_eq!(resp.body, b"hi".to_vec());
    assert_eq!(header(&resp, ResponseHeader::ContentType), Some("text/html".to_string()));
    assert_eq!(header(&resp, ResponseHeader::ContentLength), Some("2".to_string()));
}

#[test]
fn directory_without_slash_redirects_to_the_slashed_uri() {
    let routes = vec![RouteConfig::Directory {
        matches: "/*".to_string(),
        directory: "./public".to_string(),
    }];
    let mut state = AppState::from_config(base_config(routes));
    let request = parse(b"GET /docs HTTP/1.1\r\n\r\n");
    let resp = file_outcome(
        &mut state,
        &request,
        "./public/docs",
        FileProbe::Directory { index: None },
        DATE,
    );
    assert_eq!(resp.status.code(), 301);
    assert_eq!(header(&resp, ResponseHeader::Location), Some("/docs/".to_string()));
}

#[test]
fn directory_with_slash_serves_its_index() {
    let routes = vec![RouteConfig::Directory {
        matches: "/*".to_string(),
        directory: "./public".to_string(),
    }];
    let mut state = AppState::from_config(base_config(routes));
    let request = parse(b"GET /docs/ HTTP/1.1\r\n\r\n");
    let resp = file_outcome(
        &mut state,
        &request,
        "./public/docs/",
        FileProbe::Directory { index: Some(b"<p>index</p>".to_vec()) },
        DATE,
    );
    assert_eq!(resp.status.code(), 200);
    assert_eq!(resp.body, b"<p>index</p>".to_vec());
    assert_eq!(header(&resp, ResponseHeader::ContentType), Some("text/html".to_string()));
}

#[test]
fn missing_file_answers_not_found() {
    let mut state = AppState::from_config(base_config(Vec::new()));
    let request = parse(b"GET /gone HTTP/1.1\r\n\r\n");
    let resp = file_outcome(&mut state, &request, "./public/gone", FileProbe::Missing, DATE);
    assert_eq!(resp.status.code(), 404);
    assert_eq!(resp.body, b"<h1>404 Not Found</h1>".to_vec());
}

#[test]
fn error_handler_names_the_status_in_its_page() {
    let resp = error_handler(None, StatusCode::BadGateway, DATE);
    assert_eq!(resp.status.code(), 502);
    assert_eq!(resp.body, b"<html><body><h1>502 Bad Gateway</h1></body></html>".to_vec());
    assert_eq!(header(&resp, ResponseHeader::Connection), Some("close".to_string()));
    assert_eq!(header(&resp, ResponseHeader::ContentType), Some("text/html".to_string()));
}

#[test]
fn keep_alive_follows_the_connection_header() {
    let keep = parse(b"GET / HTTP/1.1\r\nConnection: Keep-Alive\r\n\r\n");
    assert!(keep_alive_requested(&keep));
    let close = parse(b"GET / HTTP/1.1\r\nConnection: close\r\n\r\n");
    assert!(!keep_alive_requested(&close));
    let silent = parse(b"GET / HTTP/1.1\r\n\r\n");
    assert!(!keep_alive_requested(&silent));
}

#[test]
fn malformed_request_answers_four_hundred_and_closes() {
    let mut state = AppState::from_config(base_config(Vec::new()));
    let mut stream = BufSource::new(b"GET\r\n\r\n".to_vec());
    let step = handle_connection_step(&mut stream, &mut state, "1.2.3.4:5678", 0, DATE, 65536);
    match step {
        WorkerStep::Respond { response, keep } => {
            assert_eq!(response.status.code(), 400);
            assert!(!keep);
            assert_eq!(
                get_resp_header(&response.headers, &ResponseHeader::Connection),
                Some("close".to_string())
            );
        },
        _ => panic!("expected an immediate response"),
    }
}

#[test]
fn dead_stream_closes_the_connection() {
    let mut state = AppState::from_config(base_config(Vec::new()));
    let mut stream = BufSource::new(b"GET / HTT".to_vec());
    let step = handle_connection_step(&mut stream, &mut state, "a", 0, DATE, 65536);
    assert!(matches!(step, WorkerStep::Close));
}

#[test]
fn keep_alive_request_keeps_the_connection_and_mirrors_the_header() {
    let mut state = AppState::from_config(base_config(Vec::new()));
    let mut stream = BufSource::new(b"GET / HTTP/1.1\r\nConnection: keep-alive\r\n\r\n".to_vec());
    let step = handle_connection_step(&mut stream, &mut state, "a", 0, DATE, 65536);
    match step {
        WorkerStep::Respond { response, keep } => {
            assert!(keep);
            assert_eq!(response.status.code(), 404);
            assert_eq!(
                get_resp_header(&response.headers, &ResponseHeader::Connection),
                Some("keep-alive".to_string())
            );
        },
        _ => panic!("expected a response step"),
    }
}

#[test]
fn proxy_route_rewrites_the_host_and_hands_back_the_wire() {
    let lb = LoadBalancer::new(vec!["backend:80".to_string()], LoadBalancerMode::RoundRobin);
    let routes = vec![RouteConfig::Proxy { matches: "/*".to_string(), load_balancer: lb }];
    let mut state = AppState::from_config(base_config(routes));
    let raw = b"GET /x HTTP/1.1\r\nHost: y\r\n\r\n";
    let mut stream = BufSource::new(raw.to_vec());
    let step = handle_connection_step(&mut stream, &mut state, "a", 0, DATE, 65536);
    match step {
        WorkerStep::ConnectProxy { target, wire, keep, .. } => {
            assert_eq!(target, "backend:80".to_string());
            let expected = b"GET /x HTTP/1.1\r\nHost: backend\r\n\r\n";
            assert_eq!(wire, expected.to_vec());
            assert!(!keep);
        },
        _ => panic!("expected a proxy step"),
    }
}

#[test]
fn forbidden_mode_answers_four_oh_three() {
    let mut config = base_config(Vec::new());
    config.blacklist.mode = BlacklistMode::Forbidden;
    config.blacklist.list.push("1.2.3.4".to_string());
    let mut state = AppState::from_config(config);
    let mut stream = BufSource::new(b"GET / HTTP/1.1\r\n\r\n".to_vec());
    let step = handle_connection_step(&mut stream, &mut state, "1.2.3.4:5678", 0, DATE, 65536);
    match step {
        WorkerStep::Respond { response, keep } => {
            assert_eq!(response.status.code(), 403);
            assert!(!keep);
        },
        _ => panic!("expected a forbidden response"),
    }
}

#[test]
fn cached_entry_is_served_without_the_file_system() {
    let routes = vec![RouteConfig::File {
        matches: "/*".to_string(),
        file: "./public/a.html".to_string(),
    }];
    let mut state = AppState::from_config(base_config(routes));
    state.cache.set("./public/a.html", b"cached".to_vec(), "text/html".to_string());
    let mut stream = BufSource::new(b"GET /a.html HTTP/1.1\r\n\r\n".to_vec());
    let step = handle_connection_step(&mut stream, &mut state, "a", 0, DATE, 65536);
    match step {
        WorkerStep::Respond { response, .. } => {
            assert_eq!(response.status.code(), 200);
            assert_eq!(response.body, b"cached".to_vec());
        },
        _ => panic!("expected the cache to answer"),
    }
}

#[test]
fn build_config_reads_options_and_routes() {
    let text = "server {\n address \"1.2.3.4\"\n port 8080\n threads 8\n cache { limit 16M }\n route /* { file \"./public\" }\n route /api/* {\n proxy \"127.0.0.1:8080,127.0.0.1:8081\"\n load_balancer \"round-robin\"\n }\n}\n";
    let tree = humphrey::config::parse_conf(text, "conf").unwrap();
    let config = build_config(&tree);
    assert_eq!(config.address, "1.2.3.4".to_string());
    assert_eq!(config.port, 8080);
    assert_eq!(config.threads, 8);
    assert_eq!(config.cache_limit, 16777216);
    assert_eq!(config.routes.len(), 2);
    assert!(matches!(&config.routes[0], RouteConfig::File { matches, file }
        if *matches == "/*".to_string() && *file == "./public".to_string()));
    match &config.routes[1] {
        RouteConfig::Proxy { matches, load_balancer } => {
            assert_eq!(*matches, "/api/*".to_string());
            assert_eq!(load_balancer.targets.len(), 2);
            assert_eq!(load_balancer.targets[0], "127.0.0.1:8080".to_string());
            assert_eq!(load_balancer.mode, LoadBalancerMode::RoundRobin);
        },
        _ => panic!("expected a proxy route"),
    }
}

#[test]
fn upgrade_requests_open_the_tunnel_before_routing() {
    let mut config = base_config(vec![RouteConfig::File {
        matches: "/*".to_string(),
        file: "./public/a".to_string(),
    }]);
    config.websocket_proxy = Some("ws-backend:9000".to_string());
    let mut state = AppState::from_config(config);
    let raw = b"GET /chat HTTP/1.1\r\nUpgrade: websocket\r\n\r\n";
    let mut stream = BufSource::new(raw.to_vec());
    let step = handle_connection_step(&mut stream, &mut state, "a", 0, DATE, 65536);
    match step {
        WorkerStep::OpenTunnel { backend, wire, .. } => {
            assert_eq!(backend, Some("ws-backend:9000".to_string()));
            assert_eq!(wire, raw.to_vec());
        },
        _ => panic!("expected the tunnel step"),
    }

    // Without a configured backend the tunnel step says so.
    let mut state = AppState::from_config(base_config(Vec::new()));
    let mut stream = BufSource::new(raw.to_vec());
    let step = handle_connection_step(&mut stream, &mut state, "a", 0, DATE, 65536);
    assert!(matches!(step, WorkerStep::OpenTunnel { backend: None, .. }));
}
