use hilmon::collect::Collector;
use hilmon::double::Double;
use hilmon::http::{
    answer, can_decode, content_type, file_route, fnv1a, leads_inside, percent_decode, route, send,
    tag_of, Request, Route, Server, SECURITY_HEADERS,
};
use hilmon::model::{Config, Gpu, Server as Machine};

#[test]
fn only_whitelisted_extensions_are_servable() {
    assert!(content_type("index.html").is_some());
    assert!(content_type("icons/favicon.ico").is_some());
    assert!(content_type("hilmon.py").is_none());
    assert!(content_type("servers.json").is_some(), "json is allowed by type");
    assert!(content_type("Cargo.toml").is_none());
    assert!(content_type("noext").is_none());
}

#[test]
fn percent_decoding_handles_escaped_traversal() {
    assert_eq!(percent_decode("icons%2Ffavicon.ico"), "icons/favicon.ico");
    assert_eq!(percent_decode("%2e%2e/x"), "../x");
    assert_eq!(percent_decode("plain"), "plain");
}

#[test]
fn traversal_components_are_rejected() {
    for bad in ["../servers.json", "icons/../../hilmon.py", "%2e%2e/x"] {
        let rel = percent_decode(bad);
        let has_escape = !leads_inside(&rel);
        assert!(has_escape, "{:?} should be rejected", bad);
    }
    let ok = percent_decode("icons/icon-192.png");
    assert!(leads_inside(&ok));
}

#[test]
fn etag_changes_with_content() {
    assert_ne!(fnv1a(b"a"), fnv1a(b"b"));
    assert_eq!(fnv1a(b"same"), fnv1a(b"same"));
}

#[test]
fn names_are_taken_apart_as_paths_are() {
    for p in [
        "index.html", "a/b.png", "a.b.css", ".html", "a/.js", "a.", "a.html/", "a.html/.", "a.html//",
        "..", "a/..", ".", "./a.html", "/a.html", "a/./b.svg", "", "/", "a.HTML", "x.webmanifest",
        "a/b.d/c", "a..js", "....js",
    ] {
        let ext = std::path::Path::new(p).extension().and_then(|e| e.to_str());
        let listed = matches!(
            ext,
            Some("html" | "json" | "webmanifest" | "png" | "ico" | "svg" | "webp" | "css" | "js")
        );
        assert_eq!(content_type(p).is_some(), listed, "{:?}", p);
        let down = std::path::Path::new(p)
            .components()
            .all(|c| matches!(c, std::path::Component::Normal(_)));
        assert_eq!(leads_inside(p), down, "{:?}", p);
    }
    assert_eq!(content_type("a.html"), Some("text/html; charset=utf-8"));
    assert_eq!(content_type("a.json"), Some("application/json; charset=utf-8"));
    assert_eq!(content_type("a.webmanifest"), Some("application/manifest+json"));
    assert_eq!(content_type("a.png"), Some("image/png"));
    assert_eq!(content_type("a.ico"), Some("image/x-icon"));
    assert_eq!(content_type("a.svg"), Some("image/svg+xml"));
    assert_eq!(content_type("a.webp"), Some("image/webp"));
    assert_eq!(content_type("a.css"), Some("text/css"));
    assert_eq!(content_type("a.js"), Some("text/javascript"));
}

#[test]
fn escapes_are_decoded_once() {
    assert_eq!(percent_decode("a%20b%2"), "a b%2");
    assert_eq!(percent_decode("%252e"), "%2e");
    assert_eq!(percent_decode("%zz%4"), "%zz%4");
    assert_eq!(percent_decode("%41"), "A");
    assert_eq!(percent_decode("%+fx"), "\u{f}x");
    assert_eq!(percent_decode("무향실"), "무향실");
    assert_eq!(percent_decode("%ea%b0%80"), "가");
    // Bytes that are no text are replaced.
    assert_eq!(percent_decode("%ff."), "\u{fffd}.");
    assert!(!can_decode("%가나"));
    assert!(!can_decode("%가"));
    assert!(can_decode("%41가"));
    assert!(can_decode("%é나"));
}

#[test]
fn hashes_are_those_of_the_algorithm() {
    assert_eq!(fnv1a(b""), 0xcbf2_9ce4_8422_2325);
    assert_eq!(fnv1a(b"a"), 0xaf63_dc4c_8601_ec8c);
    assert_eq!(fnv1a(b"foobar"), 0x8594_4171_f739_67e8);
    assert_eq!(tag_of(b"a"), "\"af63dc4c8601ec8c\"");
}

#[test]
fn one_changed_byte_shows_in_the_tag() {
    let body = b"{\"servers\":[]}".to_vec();
    for i in 0..body.len() {
        let mut other = body.clone();
        other[i] ^= 1;
        assert_ne!(tag_of(&body), tag_of(&other));
    }
}

#[test]
fn a_request_is_read_line_by_line() {
    let mut r = Request::new("GET /status.json?x=1 HTTP/1.1\r\n");
    assert_eq!((r.method.as_str(), r.target.as_str()), ("GET", "/status.json?x=1"));
    assert!(!r.feed("Host: x\r\n"));
    assert!(!r.feed("If-None-Match:  \"abc\" \r\n"));
    assert!(!r.feed("no colon\r\n"));
    assert!(r.feed("\r\n"));
    assert_eq!(r.if_none_match.as_deref(), Some("\"abc\""));
    let r = Request::new("\r\n");
    assert_eq!((r.method.as_str(), r.target.as_str()), ("", "/"));
    let mut r = Request::new("GET");
    r.feed("if-none-match: one");
    r.feed("IF-NONE-MATCH: two:three");
    assert_eq!(r.target, "/");
    assert_eq!(r.if_none_match.as_deref(), Some("two:three"));
}

#[test]
fn requests_are_routed() {
    assert!(matches!(route("POST", "/"), Route::NotAllowed));
    assert!(matches!(route("", "/"), Route::NotAllowed));
    assert!(matches!(route("GET", "/"), Route::Page));
    assert!(matches!(route("HEAD", "/index.html?v=2"), Route::Page));
    assert!(matches!(route("GET", "/stats.json"), Route::Stats));
    assert!(matches!(route("GET", "/api/stats?"), Route::Stats));
    assert!(matches!(route("GET", "/status.json"), Route::Status));
    assert!(matches!(route("GET", "/api/status"), Route::Status));
    match route("GET", "/icons%2ficon-192.png") {
        Route::File(p, t) => assert_eq!((p.as_str(), t), ("icons/icon-192.png", "image/png")),
        _ => panic!("a file"),
    }
    assert!(matches!(route("GET", "/../servers.json"), Route::NotFound));
    assert!(matches!(route("GET", "/%2e%2e/servers.json"), Route::NotFound));
    assert!(matches!(route("GET", "/%2fetc/x.json"), Route::NotFound));
    assert!(matches!(route("GET", "/hilmon.py"), Route::NotFound));
    assert!(matches!(route("GET", "/%가나.json"), Route::Closed));
    assert!(matches!(file_route("a.css"), Route::File(_, "text/css")));
    assert!(matches!(file_route("../a.css"), Route::NotFound));
}

#[test]
fn answers_have_their_heads() {
    let r = send(200, b"hello", "text/css", Some(("\"t\"", None)), false);
    assert_eq!(
        r.head,
        format!(
            "HTTP/1.1 200 OK\r\nContent-Type: text/css\r\nContent-Length: 5\r\nETag: \"t\"\r\n\
             Cache-Control: no-cache\r\n{}Connection: close\r\n\r\n",
            SECURITY_HEADERS
        )
    );
    assert_eq!(r.body, b"hello");
    let r = send(200, b"hello", "text/css", Some(("\"t\"", Some("\"t\""))), false);
    assert_eq!(
        r.head,
        format!(
            "HTTP/1.1 304 Not Modified\r\nETag: \"t\"\r\nCache-Control: no-cache\r\n{}\r\n",
            SECURITY_HEADERS
        )
    );
    assert!(r.body.is_empty());
    assert!(send(200, b"x", "t", Some(("a", Some("b"))), false).head.starts_with("HTTP/1.1 200 OK"));
    assert!(send(404, b"", "t", None, true).head.starts_with("HTTP/1.1 404 Not Found\r\n"));
    assert!(send(405, b"", "t", None, true).head.starts_with("HTTP/1.1 405 Method Not Allowed\r\n"));
    assert!(send(500, b"", "t", None, true).head.starts_with("HTTP/1.1 500 Internal Server Error\r\n"));
    assert_eq!(SECURITY_HEADERS.lines().count(), 8);
    assert!(SECURITY_HEADERS.contains("; style-src 'unsafe-inline'; connect-src 'self'; "));
}

#[test]
fn routes_are_answered() {
    let a = answer(&Route::NotAllowed, None, None, false).unwrap();
    assert!(a.head.contains(" 405 ") && a.body == b"method not allowed");
    assert!(a.head.contains("Cache-Control: no-store\r\n"));
    let a = answer(&Route::Page, None, None, false).unwrap();
    assert!(a.head.contains(" 500 ") && a.body == b"web/index.html missing");
    let a = answer(&Route::Page, Some(b"<p>"), None, true).unwrap();
    assert!(a.head.contains("Content-Length: 3\r\n") && a.body.is_empty());
    let a = answer(&Route::NotFound, None, None, false).unwrap();
    assert!(a.head.contains(" 404 ") && a.body == b"not found");
    let f = Route::File("a.css".to_string(), "text/css");
    let a = answer(&f, None, None, false).unwrap();
    assert!(a.head.contains(" 404 "));
    let tag = tag_of(b"x");
    let a = answer(&f, Some(b"x"), Some(&tag), false).unwrap();
    assert!(a.head.contains(" 304 ") && a.body.is_empty());
    let a = answer(&f, Some(b"y"), Some(&tag), false).unwrap();
    assert!(a.head.contains(" 200 ") && a.body == b"y");
    assert!(a.head.contains("Content-Type: text/css\r\n"));
    assert!(answer(&Route::Closed, None, None, false).is_none());
    assert!(answer(&Route::Status, None, None, false).is_none());
    let a = answer(&Route::Stats, Some(b"{}"), None, false).unwrap();
    assert!(a.head.contains("Content-Type: application/json; charset=utf-8\r\n"));
}

fn collector() -> Collector {
    let cfg = Config {
        ssh_user: "u".into(),
        public_mode: true,
        min_gap: Double::from_u64(3),
        window: Double::from_u64(10),
        max_per_window: 5,
        connect_timeout: 6,
        power_points: 10,
        power_log: false,
        stats_period: 10,
        stats_keep_days: 365,
        servers: vec![Machine {
            name: "hi14".into(),
            host: "h".into(),
            port: 22,
            gpu_model: String::new(),
            n_gpu: 1,
            loc: String::new(),
            identity: None,
            enabled: true,
            pin_address: false,
            note: String::new(),
        }],
        racks: vec![],
    };
    Collector::new(cfg, "stats".to_string())
}

#[test]
fn the_snapshot_is_written_once_while_nothing_moves() {
    let mut c = collector();
    let mut s = Server::new("web".to_string(), true);
    c.commit("hi14", vec![Gpu::default()], None, Double::from_u64(1000), 0);
    let (body, tag) = s.status_body(&c);
    assert_eq!(body, c.snapshot_json(true).into_bytes());
    assert_eq!(tag, tag_of(&body));
    // A status alone does not move the time of the newest sample.
    c.set_state("hi14", hilmon::model::Status::Down, "gone");
    assert_eq!(s.status_body(&c), (body.clone(), tag));
    c.commit("hi14", vec![Gpu::default()], None, Double::from_u64(1001), 0);
    let (next, _) = s.status_body(&c);
    assert_eq!(next, c.snapshot_json(true).into_bytes());
    assert_ne!(next, body);
}

#[test]
fn statistics_are_written_once_a_minute() {
    let mut s = Server::new("web".to_string(), true);
    assert!(s.stats_due(0));
    s.keep_stats(1000, "{}");
    assert_eq!(s.stats_body(), b"{}");
    assert!(!s.stats_due(1000));
    assert!(!s.stats_due(1059));
    assert!(!s.stats_due(5));
    assert!(s.stats_due(1060));
    s.keep_stats(1000, "");
    assert!(s.stats_due(1001));
}
