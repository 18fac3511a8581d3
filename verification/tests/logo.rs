use iptv_rs::config::Settings;
use iptv_rs::logo::{sanitize_file_stem, LogoResolver};
use iptv_rs::models::Channel;

fn settings(root: &str) -> Settings {
    Settings {
        root: root.into(),
        open_update: true,
        open_service: true,
        open_local: true,
        open_subscribe: true,
        open_auto_disable_source: true,
        open_history: true,
        open_unmatch_category: false,
        open_empty_category: false,
        open_update_time: true,
        open_url_info: false,
        open_epg: true,
        open_m3u_result: true,
        update_startup: true,
        update_interval: 12,
        update_time_position: "top".into(),
        nginx_http_port: 8080,
        public_scheme: "http".into(),
        public_domain: "127.0.0.1".into(),
        public_port: 80,
        source_file: "config/demo.txt".into(),
        local_source_list_file: "config/local_sources.txt".into(),
        subscribe_file: "config/subscribe.txt".into(),
        epg_file: "config/epg.txt".into(),
        alias_file: "config/alias.txt".into(),
        blacklist_file: "config/blacklist.txt".into(),
        whitelist_file: "config/whitelist.txt".into(),
        final_file: "output/result.txt".into(),
        epg_output_file: "output/epg/epg.xml".into(),
        urls_limit: 5,
        request_timeout: 10,
        ipv_type: "all".into(),
        ipv_type_prefer: Vec::new(),
        origin_type_prefer: Vec::new(),
        iptv_source_prefer: Vec::new(),
        iptv_source_filter: Vec::new(),
        default_user_agent: "iptv-rs/0.1".into(),
        http_proxy: None,
        logo_dir: "config/logo".into(),
        local_logo_base_url: None,
        logo_url: None,
        logo_type: "png".into(),
    }
}

fn channel(name: &str, tvg_id: Option<&str>, logo: Option<&str>) -> Channel {
    Channel {
        name: name.into(),
        group: None,
        tvg_id: tvg_id.map(ToString::to_string),
        logo: logo.map(ToString::to_string),
        streams: Vec::new(),
        order: 0,
    }
}

#[test]
fn sanitizes_file_stems() {
    assert_eq!(sanitize_file_stem("CCTV 5+"), "CCTV-5+");
    assert_eq!(sanitize_file_stem("湖南卫视"), "湖南卫视");
}

#[test]
fn sanitizing_collapses_runs_and_trims_dashes() {
    assert_eq!(sanitize_file_stem("  --A  /  B--  "), "A-B");
    assert_eq!(sanitize_file_stem("x.y_z"), "x.y_z");
    assert_eq!(sanitize_file_stem("!!!"), "");
}

#[test]
fn candidates_are_sorted_without_repeats() {
    let resolver = LogoResolver::new(&settings("/srv"));
    let paths = resolver.local_logo_candidates(&channel("CCTV1", None, None));
    assert_eq!(
        paths,
        vec![
            "/srv/config/logo/CCTV1.jpeg",
            "/srv/config/logo/CCTV1.jpg",
            "/srv/config/logo/CCTV1.png",
            "/srv/config/logo/CCTV1.svg",
            "/srv/config/logo/CCTV1.webp",
        ]
    );
    let with_id = resolver.local_logo_candidates(&channel("CCTV 1", Some("cctv1"), None));
    assert_eq!(with_id.len(), 15);
    assert_eq!(with_id[0], "/srv/config/logo/CCTV 1.jpeg");
    assert!(with_id.contains(&"/srv/config/logo/CCTV-1.png".to_string()));
    assert!(with_id.contains(&"/srv/config/logo/cctv1.webp".to_string()));
}

#[test]
fn local_logos_are_referred_to_by_base_address_or_relative_path() {
    let mut s = settings("/srv");
    let resolver = LogoResolver::new(&s);
    assert_eq!(
        resolver.local_logo_reference("/srv/config/logo/A.png"),
        "config/logo/A.png"
    );
    assert_eq!(resolver.local_logo_reference("/other/A.png"), "/other/A.png");
    s.local_logo_base_url = Some("http://host/logos/".into());
    let resolver = LogoResolver::new(&s);
    assert_eq!(
        resolver.local_logo_reference("/srv/config/logo/A.png"),
        "http://host/logos/A.png"
    );
}

#[test]
fn apply_prefers_local_files_then_existing_logos_then_remote() {
    let mut s = settings("/srv");
    s.logo_url = Some("https://cdn.test/logo//".into());
    let resolver = LogoResolver::new(&s);
    let mut channels = vec![
        channel("A", None, Some("http://old/a.png")),
        channel("B", None, Some("http://old/b.png")),
        channel("湖南 卫视", None, None),
    ];
    let found = vec![Some("/srv/config/logo/A.png".to_string()), None, None];
    resolver.apply(&mut channels, &found);
    assert_eq!(channels[0].logo.as_deref(), Some("config/logo/A.png"));
    assert_eq!(channels[1].logo.as_deref(), Some("http://old/b.png"));
    assert_eq!(
        channels[2].logo.as_deref(),
        Some("https://cdn.test/logo/湖南-卫视.png")
    );
}
