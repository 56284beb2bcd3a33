use edge_relay::config::{
    default_pool_max_idle_secs, default_pool_max_size, default_pool_probe_timeout_ms, AppConfig,
    PoolConfig,
};
use edge_relay::router::{find_route, route_request};
use edge_relay::statics::{bad_gateway_response, get_mime_type, static_file_name, static_response};

fn routes() -> Vec<(String, String)> {
    vec![
        ("/api".to_string(), "127.0.0.1:9000".to_string()),
        ("/img".to_string(), "127.0.0.1:9001".to_string()),
    ]
}

#[test]
fn first_matching_prefix_wins() {
    assert_eq!(route_request(&routes(), b"GET /api/users HTTP/1.1\r\n\r\n"), Some(0));
    assert_eq!(route_request(&routes(), b"GET /img/a.png HTTP/1.1\r\n\r\n"), Some(1));
    let overlapping = vec![
        ("/api".to_string(), "a:1".to_string()),
        ("/api/v2".to_string(), "b:2".to_string()),
    ];
    assert_eq!(find_route(&overlapping, b"/api/v2/x"), Some(0));
}

#[test]
fn unmatched_path_goes_static() {
    assert_eq!(route_request(&routes(), b"GET /index.html HTTP/1.1\r\n\r\n"), None);
    assert_eq!(route_request(&routes(), b"GET /ap HTTP/1.1\r\n\r\n"), None);
    assert_eq!(route_request(&Vec::new(), b"GET /api HTTP/1.1\r\n\r\n"), None);
}

#[test]
fn missing_path_routes_as_root() {
    let root = vec![("/".to_string(), "a:1".to_string())];
    assert_eq!(route_request(&root, b"GET\r\n\r\n"), Some(0));
    assert_eq!(route_request(&routes(), b"GET\r\n\r\n"), None);
}

#[test]
fn missing_file_gives_404() {
    let name = static_file_name(b"/nope.html");
    assert_eq!(name, b"nope.html".to_vec());
    let resp = static_response(None, "nope.html");
    let body = b"<h1>404 Not Found</h1>";
    let expected = format!(
        "HTTP/1.1 404 NOT FOUND\r\nContent-Type: text/html\r\nContent-Length: {}\r\n\r\n<h1>404 Not Found</h1>",
        body.len()
    );
    assert_eq!(resp, expected.into_bytes());
    assert!(String::from_utf8(resp).unwrap().contains("Content-Length: 22\r\n"));
}

#[test]
fn found_file_gives_200_with_type() {
    let resp = static_response(Some(b"body { }".to_vec()), "site.css");
    assert_eq!(
        resp,
        b"HTTP/1.1 200 OK\r\nContent-Type: text/css\r\nContent-Length: 8\r\n\r\nbody { }".to_vec()
    );
    let big = vec![0u8; 1234];
    let resp = static_response(Some(big), "blob");
    let head = b"HTTP/1.1 200 OK\r\nContent-Type: application/octet-stream\r\nContent-Length: 1234\r\n\r\n";
    assert_eq!(&resp[..head.len()], &head[..]);
    assert_eq!(resp.len(), head.len() + 1234);
    let resp = static_response(Some(Vec::new()), "empty.html");
    assert_eq!(resp, b"HTTP/1.1 200 OK\r\nContent-Type: text/html\r\nContent-Length: 0\r\n\r\n".to_vec());
}

#[test]
fn root_path_serves_index() {
    assert_eq!(static_file_name(b"/"), b"index.html".to_vec());
    assert_eq!(static_file_name(b"/css/site.css"), b"css/site.css".to_vec());
    assert_eq!(static_file_name(b"x"), b"".to_vec());
}

#[test]
fn mime_types_by_extension() {
    assert_eq!(get_mime_type("index.html"), "text/html");
    assert_eq!(get_mime_type("a.css"), "text/css");
    assert_eq!(get_mime_type("app.js"), "application/javascript");
    assert_eq!(get_mime_type("logo.png"), "image/png");
    assert_eq!(get_mime_type("p.jpg"), "image/jpeg");
    assert_eq!(get_mime_type("p.jpeg"), "image/jpeg");
    assert_eq!(get_mime_type("archive.tar"), "application/octet-stream");
    assert_eq!(get_mime_type("html"), "application/octet-stream");
}

#[test]
fn bad_gateway_reply() {
    assert_eq!(bad_gateway_response(), b"HTTP/1.1 502 Bad Gateway\r\n\r\nUpstream down".to_vec());
}

#[test]
fn pool_defaults() {
    let d = PoolConfig::default();
    assert_eq!(d.max_size, 128);
    assert_eq!(d.max_idle_secs, 60);
    assert_eq!(d.probe_timeout_ms, 200);
    assert_eq!(default_pool_max_size(), 128);
    assert_eq!(default_pool_max_idle_secs(), 60);
    assert_eq!(default_pool_probe_timeout_ms(), 200);
}

#[test]
fn app_config_holds_routes_in_order() {
    let cfg = AppConfig {
        listen_addr: "127.0.0.1:8080".to_string(),
        root_path: "./www".to_string(),
        upstreams: routes(),
        pool: PoolConfig::default(),
    };
    assert_eq!(route_request(&cfg.upstreams, b"GET /img/x HTTP/1.1\r\n\r\n"), Some(1));
    assert_eq!(cfg.upstreams[1].1, "127.0.0.1:9001");
}
