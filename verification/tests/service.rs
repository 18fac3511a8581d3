use iptv_rs::config::Settings;
use iptv_rs::metadata::{channels_from_metadata_bytes, channels_to_metadata_bytes};
use iptv_rs::models::{Channel, IpvType, Origin, Stream};
use iptv_rs::service::{
    content_type, generated_settings, iptv_sources_from_pairs, parse_request_target,
    prepare_generated_channels, public_base_url, public_url_listing, resolve_route,
    response_head, safe_join, status_reason, with_extension, GeneratedFormat, Route,
};

fn test_settings() -> Settings {
    Settings {
        root: ".".into(),
        open_update: true,
        open_service: true,
        open_local: true,
        open_subscribe: true,
        open_auto_disable_source: true,
        open_history: true,
        open_unmatch_category: true,
        open_empty_category: false,
        open_update_time: true,
        open_url_info: false,
        open_epg: true,
        open_m3u_result: true,
        update_startup: true,
        update_interval: 12,
        update_time_position: "top".into(),
        nginx_http_port: 8080,
        public_scheme: "http".into(),
        public_domain: "127.0.0.1".into(),
        public_port: 80,
        source_file: "config/demo.txt".into(),
        local_source_list_file: "config/local_sources.txt".into(),
        subscribe_file: "config/subscribe.txt".into(),
        epg_file: "config/epg.txt".into(),
        alias_file: "config/alias.txt".into(),
        blacklist_file: "config/blacklist.txt".into(),
        whitelist_file: "config/whitelist.txt".into(),
        final_file: "output/result.txt".into(),
        epg_output_file: "output/epg/epg.xml".into(),
        urls_limit: 5,
        request_timeout: 10,
        ipv_type: "all".into(),
        ipv_type_prefer: Vec::new(),
        origin_type_prefer: Vec::new(),
        iptv_source_prefer: Vec::new(),
        iptv_source_filter: Vec::new(),
        default_user_agent: "iptv-rs/0.1".into(),
        http_proxy: None,
        logo_dir: "config/logo".into(),
        local_logo_base_url: None,
        logo_url: None,
        logo_type: "png".into(),
    }
}

fn stream(url: &str, iptv_source: Option<&str>, iptv_restricted: bool) -> Stream {
    Stream {
        url: url.into(),
        origin: Origin::Subscribe,
        whitelist: false,
        source_order: 0,
        iptv_source: iptv_source.map(ToString::to_string),
        iptv_restricted,
        ipv_type: IpvType::Ipv4,
    }
}

fn file_of(route: Route) -> Option<String> {
    match route {
        Route::File(p) => Some(p),
        _ => None,
    }
}

#[test]
fn rejects_path_traversal() {
    assert!(safe_join("/tmp/output", "result.txt").is_some());
    assert!(safe_join("/tmp/output", "../config.ini").is_none());
    assert!(safe_join("/tmp/output", "/etc/passwd").is_none());
}

#[test]
fn safe_join_skips_current_directory_parts() {
    assert_eq!(
        safe_join("/tmp/output", "./a//b/./c.txt").as_deref(),
        Some("/tmp/output/a/b/c.txt")
    );
    assert_eq!(safe_join("/tmp/output", "").as_deref(), Some("/tmp/output"));
    assert!(safe_join("/tmp/output", "a/../../x").is_none());
}

#[test]
fn parses_iptv_source_query() {
    let target = parse_request_target("GET /txt?iptv=home,backup&x=1 HTTP/1.1").unwrap();

    assert_eq!(target.path, "/txt");
    assert_eq!(target.iptv_source_prefer, vec!["home", "backup"]);
}

#[test]
fn request_targets_need_get_or_head_and_a_path() {
    assert!(parse_request_target("POST /txt HTTP/1.1").is_none());
    assert!(parse_request_target("GET").is_none());
    assert!(parse_request_target("").is_none());
    let head = parse_request_target("HEAD   /m3u?source=A%20B+C&iptv_source=x,,y \r\nHost: h\r\n").unwrap();
    assert_eq!(head.path, "/m3u");
    assert_eq!(head.iptv_source_prefer, vec!["a b c", "x", "y"]);
    let plain = parse_request_target("GET /epg HTTP/1.1").unwrap();
    assert_eq!(plain.path, "/epg");
    assert!(plain.iptv_source_prefer.is_empty());
}

#[test]
fn query_pairs_select_source_keys() {
    let pairs = vec![
        ("iptv".to_string(), " Home , ".to_string()),
        ("other".to_string(), "x".to_string()),
        ("source".to_string(), "B".to_string()),
    ];
    assert_eq!(iptv_sources_from_pairs(&pairs), vec!["home", "b"]);
}

#[test]
fn generated_output_filters_restricted_iptv_sources_from_query() {
    let channels = vec![Channel {
        name: "CCTV-1".into(),
        group: Some("央视".into()),
        tvg_id: None,
        logo: None,
        streams: vec![
            stream("http://zj.test/live.m3u8", Some("zj-telecom"), true),
            stream("http://public.test/live.m3u8", None, false),
            stream("http://sh.test/live.m3u8", Some("sh-unicom"), true),
        ],
        order: 1,
    }];
    let bytes = channels_to_metadata_bytes(&channels);
    let mut decoded = channels_from_metadata_bytes(&bytes).unwrap();
    let dynamic_settings = generated_settings(&test_settings(), &vec!["sh-unicom".into()]);

    prepare_generated_channels(&mut decoded, &dynamic_settings);

    let urls: Vec<&str> = decoded[0]
        .streams
        .iter()
        .map(|stream| stream.url.as_str())
        .collect();
    assert_eq!(
        urls,
        vec!["http://sh.test/live.m3u8", "http://public.test/live.m3u8"]
    );
}

#[test]
fn routes_requests() {
    let s = test_settings();
    let none: Vec<String> = Vec::new();
    let some = vec!["home".to_string()];
    assert!(matches!(resolve_route("/health", &s, &none), Route::Health));
    assert!(matches!(resolve_route("/info", &s, &some), Route::Info));
    assert_eq!(file_of(resolve_route("/", &s, &none)).as_deref(), Some("./output/result.txt"));
    assert_eq!(file_of(resolve_route("/m3u", &s, &none)).as_deref(), Some("./output/result.m3u"));
    assert_eq!(file_of(resolve_route("/epg/", &s, &none)).as_deref(), Some("./output/epg/epg.xml"));
    assert_eq!(
        file_of(resolve_route("/output/a/b.txt", &s, &none)).as_deref(),
        Some("./output/a/b.txt")
    );
    assert_eq!(
        file_of(resolve_route("/logo/A.png", &s, &none)).as_deref(),
        Some("./config/logo/A.png")
    );
    assert_eq!(
        file_of(resolve_route("/config/logo/B.png", &s, &none)).as_deref(),
        Some("./config/logo/B.png")
    );
    assert!(matches!(resolve_route("/logo/../x", &s, &none), Route::NotFound));
    assert!(matches!(resolve_route("/nothing", &s, &none), Route::NotFound));
    match resolve_route("/content", &s, &some) {
        Route::Generated(GeneratedFormat::Txt, sources) => assert_eq!(sources, some),
        other => panic!("unexpected route {other:?}"),
    }
    assert!(matches!(
        resolve_route("/m3u", &s, &some),
        Route::Generated(GeneratedFormat::M3u, _)
    ));
}

#[test]
fn replaces_extensions() {
    assert_eq!(with_extension("output/result.txt", "m3u"), "output/result.m3u");
    assert_eq!(
        with_extension("output/result.txt", "metadata.tsv"),
        "output/result.metadata.tsv"
    );
    assert_eq!(with_extension("a/.hidden", "m3u"), "a/.hidden.m3u");
    assert_eq!(with_extension("a/b.txt/", "m3u"), "a/b.m3u");
    assert_eq!(with_extension("a/b.txt", ""), "a/b");
    assert_eq!(with_extension("/", "m3u"), "/");
    assert_eq!(with_extension("a/..", "m3u"), "a/..");
}

#[test]
fn content_types_by_extension() {
    assert_eq!(content_type("x/result.m3u"), "audio/x-mpegurl; charset=utf-8");
    assert_eq!(content_type("x/epg.xml"), "application/xml; charset=utf-8");
    assert_eq!(content_type("a.jpeg"), "image/jpeg");
    assert_eq!(content_type("a.svg"), "image/svg+xml");
    assert_eq!(content_type("a.json"), "application/json; charset=utf-8");
    assert_eq!(content_type("README"), "text/plain; charset=utf-8");
}

#[test]
fn public_addresses_leave_out_default_ports() {
    let mut s = test_settings();
    assert_eq!(public_base_url(&s), "http://127.0.0.1");
    s.public_port = 8080;
    assert_eq!(public_base_url(&s), "http://127.0.0.1:8080");
    s.public_scheme = "https".into();
    s.public_port = 443;
    s.public_domain = "tv.example".into();
    assert_eq!(public_base_url(&s), "https://tv.example");
    assert_eq!(
        public_url_listing(&s),
        "iptv-rs\n\n/txt  https://tv.example/txt\n/m3u  https://tv.example/m3u\n/epg  https://tv.example/epg\n/content  https://tv.example/content\n"
    );
}

#[test]
fn response_heads() {
    assert_eq!(status_reason(404), "Not Found");
    assert_eq!(status_reason(500), "Internal Server Error");
    assert_eq!(
        response_head(200, "text/plain; charset=utf-8", 2),
        "HTTP/1.1 200 OK\r\nContent-Type: text/plain; charset=utf-8\r\nContent-Length: 2\r\nAccess-Control-Allow-Origin: *\r\nConnection: close\r\n\r\n"
    );
}
