use iptv_rs::config::{apply_env_overrides, join_path, parse_ini_settings, Settings};

#[test]
fn reads_settings_with_defaults() {
    let values = parse_ini_settings(
        "[Settings]\n; comment\n# comment\nOPEN_UPDATE = False\nurls_limit = 0\nrequest_timeout=+30\nnginx_http_port = 70000\nipv_type = IPv6\nipv_type_prefer = IPv6, auto, ,IPv4\niptv_source_filter = SH-Unicom\nhttp_proxy =   \nlogo_url = http://cdn/ \nsource_file =   \n",
    );
    let s = Settings::from_values("/srv".into(), &values);
    assert_eq!(s.root, "/srv");
    assert!(!s.open_update);
    assert!(s.open_service);
    assert!(!s.open_unmatch_category);
    assert_eq!(s.urls_limit, 1);
    assert_eq!(s.request_timeout, 30);
    assert_eq!(s.nginx_http_port, 8080);
    assert_eq!(s.ipv_type, "ipv6");
    assert_eq!(s.ipv_type_prefer, vec!["ipv6", "ipv4"]);
    assert_eq!(s.iptv_source_filter, vec!["sh-unicom"]);
    assert_eq!(s.iptv_source_prefer, vec!["sh-unicom"]);
    assert_eq!(s.http_proxy, None);
    assert_eq!(s.logo_url.as_deref(), Some("http://cdn/"));
    assert_eq!(s.source_file, "config/demo.txt");
    assert_eq!(s.update_time_position, "top");
    assert_eq!(s.public_domain, "127.0.0.1");
    assert_eq!(s.default_user_agent, "iptv-rs/0.1");
    assert_eq!(s.epg_output_file, "output/epg/epg.xml");
}

#[test]
fn switches_accept_several_spellings() {
    let values = parse_ini_settings("open_epg = yes\nopen_history = 0\nopen_url_info = ON\nopen_local = nope\n");
    let s = Settings::from_values(".".into(), &values);
    assert!(s.open_epg);
    assert!(!s.open_history);
    assert!(s.open_url_info);
    assert!(!s.open_local);
}

#[test]
fn environment_overrides_known_settings() {
    let mut values = parse_ini_settings("public_port = 80\niptv_source_prefer = a\n");
    apply_env_overrides(
        &mut values,
        &vec![
            ("PUBLIC_PORT".to_string(), "8443".to_string()),
            ("UNRELATED".to_string(), "x".to_string()),
            ("Public_Domain".to_string(), "tv.example".to_string()),
        ],
    );
    let s = Settings::from_values(".".into(), &values);
    assert_eq!(s.public_port, 8443);
    assert_eq!(s.public_domain, "tv.example");
    assert_eq!(s.iptv_source_prefer, vec!["a"]);
    assert!(s.iptv_source_filter.is_empty());
}

#[test]
fn joins_and_resolves_paths() {
    assert_eq!(join_path("/srv", "a/b"), "/srv/a/b");
    assert_eq!(join_path("/srv/", "a"), "/srv/a");
    assert_eq!(join_path("/srv", "/abs"), "/abs");
    assert_eq!(join_path("", "a"), "a");
    let s = Settings::from_values("/root".into(), &parse_ini_settings(""));
    assert_eq!(s.resolve("config/x"), "/root/config/x");
}
