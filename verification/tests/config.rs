//! The configuration language: values, sizes, sections, and the
//! flattening into dotted keys.

use humphrey::config::{clean_up, parse_conf, parse_size, quiet_assert, ConfigNode};

#[test]
fn parse_size_scales_suffixes() {
    assert_eq!(parse_size("4K"), Ok(4096));
    assert_eq!(parse_size("1M"), Ok(1048576));
    assert_eq!(parse_size("1G"), Ok(1073741824));
    assert_eq!(parse_size("2g"), Ok(2147483648));
    assert_eq!(parse_size("13"), Ok(13));
    assert_eq!(parse_size("7"), Ok(7));
    assert_eq!(parse_size("-4K"), Ok(-4096));
}

#[test]
fn parse_size_rejects_bad_forms() {
    assert_eq!(parse_size(""), Err(()));
    assert_eq!(parse_size("x"), Err(()));
    assert_eq!(parse_size("12Q"), Err(()));
    assert_eq!(parse_size("K"), Err(()));
    assert_eq!(parse_size("9999999999999999999G"), Err(()));
}

#[test]
fn clean_up_strips_comments_and_blanks() {
    assert_eq!(clean_up("  port 80  # the port\r"), "port 80".to_string());
    assert_eq!(clean_up("# all comment"), "".to_string());
    assert_eq!(clean_up("\t \r"), "".to_string());
    assert_eq!(clean_up("plain"), "plain".to_string());
}

#[test]
fn quiet_assert_reports_instead_of_panicking() {
    assert!(quiet_assert(true, "m", "f", 3).is_ok());
    let e = quiet_assert(false, "m", "f", 3).unwrap_err();
    assert_eq!(e.message, "m".to_string());
    assert_eq!(e.file, "f".to_string());
    assert_eq!(e.line, 3);
}

#[test]
fn parse_conf_builds_the_size_leaf() {
    let tree = parse_conf("server {\n cache { limit 4K }\n}\n", "conf").unwrap();
    match &tree {
        ConfigNode::Section(name, children) => {
            assert_eq!(*name, "server".to_string());
            assert_eq!(children.len(), 1);
            match &children[0] {
                ConfigNode::Section(inner_name, inner) => {
                    assert_eq!(*inner_name, "cache".to_string());
                    assert_eq!(inner.len(), 1);
                    match &inner[0] {
                        ConfigNode::Number(k, v) => {
                            assert_eq!(*k, "limit".to_string());
                            assert_eq!(*v, "4096".to_string());
                        },
                        _ => panic!("expected a number leaf"),
                    }
                },
                _ => panic!("expected the cache section"),
            }
        },
        _ => panic!("expected the server section"),
    }

    let mut map: Vec<(String, ConfigNode)> = Vec::new();
    let level: Vec<String> = Vec::new();
    match &tree {
        ConfigNode::Section(_, children) => {
            for child in children.iter() {
                child.flatten(&mut map, &level);
            }
        },
        _ => panic!("expected a section"),
    }
    assert_eq!(map.len(), 1);
    assert_eq!(map[0].0, "cache.limit".to_string());
    assert_eq!(map[0].1.get_string(), Some("4096".to_string()));
}

#[test]
fn parse_conf_requires_the_server_section() {
    assert!(parse_conf("cache { limit 4K }\n", "conf").is_err());
    assert!(parse_conf("", "conf").is_err());
}

#[test]
fn parse_conf_requires_closed_sections() {
    let e = parse_conf("server {\n cache {\n }\n", "conf").unwrap_err();
    assert_eq!(e.message, "Unexpected end of file, expected `}`".to_string());
}

#[test]
fn parse_conf_reports_unreadable_values() {
    let e = parse_conf("server {\n port eighty\n}\n", "conf").unwrap_err();
    assert_eq!(e.message, "Could not parse value".to_string());
}

#[test]
fn parse_conf_reports_keys_without_values() {
    let e = parse_conf("server {\n lonely\n}\n", "conf").unwrap_err();
    assert_eq!(e.message, "Syntax error".to_string());
}

#[test]
fn parse_conf_reads_value_forms() {
    let text = "server {\n address \"0.0.0.0\"\n port 80\n secure false\n}\n";
    let tree = parse_conf(text, "conf").unwrap();
    match &tree {
        ConfigNode::Section(_, children) => {
            assert_eq!(children.len(), 3);
            assert!(matches!(&children[0], ConfigNode::Text(k, v)
                if *k == "address".to_string() && *v == "0.0.0.0".to_string()));
            assert!(matches!(&children[1], ConfigNode::Number(k, v)
                if *k == "port".to_string() && *v == "80".to_string()));
            assert!(matches!(&children[2], ConfigNode::Boolean(k, v)
                if *k == "secure".to_string() && *v == "false".to_string()));
        },
        _ => panic!("expected a section"),
    }
}

#[test]
fn get_routes_lists_route_sections_in_order() {
    let text = "server {\n route /* {\n file \"./public\"\n }\n route /api/* {\n proxy \"127.0.0.1:8080\"\n }\n}\n";
    let tree = parse_conf(text, "conf").unwrap();
    let routes = tree.get_routes();
    assert_eq!(routes.len(), 2);
    assert_eq!(routes[0].0, "/*".to_string());
    assert_eq!(routes[0].1.len(), 1);
    assert_eq!(routes[0].1[0].0, "file".to_string());
    assert_eq!(routes[0].1[0].1.get_string(), Some("./public".to_string()));
    assert_eq!(routes[1].0, "/api/*".to_string());
    assert_eq!(routes[1].1[0].0, "proxy".to_string());
}

#[test]
fn get_plugins_reads_the_plugins_section() {
    let text = "server {\n plugins {\n php {\n address \"127.0.0.1\"\n }\n }\n}\n";
    let tree = parse_conf(text, "conf").unwrap();
    let plugins = tree.get_plugins();
    assert_eq!(plugins.len(), 1);
    assert_eq!(plugins[0].0, "php".to_string());
    assert_eq!(plugins[0].1[0].0, "address".to_string());
    assert_eq!(plugins[0].1[0].1.get_string(), Some("127.0.0.1".to_string()));
}

#[test]
fn flatten_skips_the_plugins_section() {
    let text = "server {\n port 80\n plugins {\n php {\n x 1\n }\n }\n}\n";
    let tree = parse_conf(text, "conf").unwrap();
    let mut map: Vec<(String, ConfigNode)> = Vec::new();
    let level: Vec<String> = Vec::new();
    match &tree {
        ConfigNode::Section(_, children) => {
            for child in children.iter() {
                child.flatten(&mut map, &level);
            }
        },
        _ => panic!("expected a section"),
    }
    assert_eq!(map.len(), 1);
    assert_eq!(map[0].0, "port".to_string());
}

#[test]
fn single_line_sections_parse_inline() {
    let text = "server {\n route /api { proxy \"a:1\" }\n empty { }\n}\n";
    let tree = parse_conf(text, "conf").unwrap();
    match &tree {
        ConfigNode::Section(_, children) => {
            assert_eq!(children.len(), 2);
            match &children[0] {
                ConfigNode::Route(pattern, inner) => {
                    assert_eq!(*pattern, "/api".to_string());
                    assert_eq!(inner.len(), 1);
                    assert!(matches!(&inner[0], ConfigNode::Text(k, v)
                        if *k == "proxy".to_string() && *v == "a:1".to_string()));
                },
                _ => panic!("expected a route"),
            }
            assert!(matches!(&children[1], ConfigNode::Section(name, inner)
                if *name == "empty".to_string() && inner.is_empty()));
        },
        _ => panic!("expected the server section"),
    }
}
