use iptv_rs::aggregate::{
    aggregate_channels, apply_output_preferences, limit_channel_streams, sort_channel_streams,
    source_iptv_allowed,
};
use iptv_rs::config::Settings;
use iptv_rs::hosts::infer_ipv_type;
use iptv_rs::models::{Channel, IpvType, Origin, ParsedChannel, Stream};
use iptv_rs::playlist::{
    order_for_origin, parse_m3u, parse_playlist, parse_txt, plan_local_sources,
    resolve_local_source_path, PlaylistError,
};
use iptv_rs::rules::{AliasMatcher, FilterRules};
use iptv_rs::source_list::parse_source_list;

fn test_settings(root: &str) -> Settings {
    Settings {
        root: root.into(),
        open_update: true,
        open_service: true,
        open_local: true,
        open_subscribe: true,
        open_auto_disable_source: true,
        open_history: true,
        open_unmatch_category: true,
        open_empty_category: false,
        open_update_time: true,
        open_url_info: false,
        open_epg: true,
        open_m3u_result: true,
        update_startup: true,
        update_interval: 12,
        update_time_position: "top".into(),
        nginx_http_port: 8080,
        public_scheme: "http".into(),
        public_domain: "127.0.0.1".into(),
        public_port: 80,
        source_file: "config/demo.txt".into(),
        local_source_list_file: "config/local_sources.txt".into(),
        subscribe_file: "config/subscribe.txt".into(),
        epg_file: "config/epg.txt".into(),
        alias_file: "config/alias.txt".into(),
        blacklist_file: "config/blacklist.txt".into(),
        whitelist_file: "config/whitelist.txt".into(),
        final_file: "output/result.txt".into(),
        epg_output_file: "output/epg/epg.xml".into(),
        urls_limit: 5,
        request_timeout: 10,
        ipv_type: "all".into(),
        ipv_type_prefer: Vec::new(),
        origin_type_prefer: Vec::new(),
        iptv_source_prefer: Vec::new(),
        iptv_source_filter: Vec::new(),
        default_user_agent: "iptv-rs/0.1".into(),
        http_proxy: None,
        logo_dir: "config/logo".into(),
        local_logo_base_url: None,
        logo_url: None,
        logo_type: "png".into(),
    }
}

fn ipv(url: &str) -> IpvType {
    let chars: Vec<char> = url.chars().collect();
    infer_ipv_type(&chars)
}

fn parsed_stream(
    name: &str,
    url: &str,
    iptv_source: Option<&str>,
    iptv_restricted: bool,
) -> ParsedChannel {
    ParsedChannel {
        name: name.into(),
        group: Some("测试".into()),
        tvg_id: None,
        logo: None,
        stream: Some(Stream {
            url: url.into(),
            origin: Origin::Subscribe,
            whitelist: false,
            source_order: 0,
            iptv_source: iptv_source.map(ToString::to_string),
            iptv_restricted,
            ipv_type: ipv(url),
        }),
        order: order_for_origin(Origin::Subscribe, 0),
    }
}

fn stream(url: &str, origin: Origin, whitelist: bool, source_order: usize) -> Stream {
    Stream {
        url: url.into(),
        origin,
        whitelist,
        source_order,
        iptv_source: None,
        iptv_restricted: false,
        ipv_type: IpvType::Ipv4,
    }
}

fn template(name: &str, group: &str, order: usize) -> ParsedChannel {
    ParsedChannel {
        name: name.into(),
        group: Some(group.into()),
        tvg_id: None,
        logo: None,
        stream: None,
        order,
    }
}

#[test]
fn parses_txt_groups_and_urls() {
    let items = parse_txt(
        "央视,#genre#\nCCTV-1,http://a/cctv1.m3u8\nCCTV-2\n",
        "test",
        Origin::Local,
        false,
        0,
        None,
        false,
    );

    assert_eq!(items.len(), 2);
    assert_eq!(items[0].group.as_deref(), Some("央视"));
    assert_eq!(items[0].stream.as_ref().unwrap().url, "http://a/cctv1.m3u8");
    assert!(items[1].stream.is_none());
}

#[test]
fn parses_m3u_extinf() {
    let items = parse_m3u(
        r#"#EXTM3U
#EXTINF:-1 tvg-id="cctv1" tvg-logo="http://logo" group-title="央视",CCTV-1
http://a/cctv1.m3u8
"#,
        Origin::Subscribe,
        false,
        0,
        Some("sub-a"),
        true,
    );

    assert_eq!(items.len(), 1);
    assert_eq!(items[0].name, "CCTV-1");
    assert_eq!(items[0].tvg_id.as_deref(), Some("cctv1"));
    assert_eq!(items[0].logo.as_deref(), Some("http://logo"));
    assert_eq!(
        items[0].stream.as_ref().unwrap().iptv_source.as_deref(),
        Some("sub-a")
    );
    assert!(items[0].stream.as_ref().unwrap().iptv_restricted);
}

#[test]
fn filters_restricted_iptv_sources_and_keeps_public_sources() {
    let mut settings = test_settings(".");
    settings.iptv_source_filter = vec!["sh-unicom".into()];
    settings.iptv_source_prefer = settings.iptv_source_filter.clone();
    let items = vec![
        parsed_stream(
            "CCTV-1",
            "http://zj.test/live.m3u8",
            Some("zj-telecom"),
            true,
        ),
        parsed_stream("CCTV-1", "http://public.test/live.m3u8", None, false),
        parsed_stream(
            "CCTV-1",
            "http://sh.test/live.m3u8",
            Some("sh-unicom"),
            true,
        ),
    ];

    let mut channels = aggregate_channels(
        items,
        &settings,
        &AliasMatcher::default(),
        &FilterRules::default(),
    );
    apply_output_preferences(&mut channels, &settings);

    let urls: Vec<&str> = channels[0]
        .streams
        .iter()
        .map(|stream| stream.url.as_str())
        .collect();
    assert_eq!(
        urls,
        vec!["http://sh.test/live.m3u8", "http://public.test/live.m3u8"]
    );
}

#[test]
fn plans_local_sources_with_explicit_iptv_labels() {
    let mut settings = test_settings("/srv/iptv");
    settings.iptv_source_filter = vec!["sh-unicom".into()];
    settings.iptv_source_prefer = settings.iptv_source_filter.clone();
    let entries = parse_source_list(
        "sources/sh.txt IPTV=\"sh-unicom\"\nsources/zj.txt IPTV=\"zj-telecom\"\nsources/public.txt\n",
    );
    let (plan, refusal) = plan_local_sources(&settings, &entries);
    assert_eq!(refusal, None);

    assert_eq!(plan.len(), 2);
    assert_eq!(plan[0].path, "/srv/iptv/sources/sh.txt");
    assert_eq!(plan[0].source_order, 0);
    assert_eq!(plan[0].iptv_source.as_deref(), Some("sh-unicom"));
    assert!(plan[0].iptv_restricted);
    assert_eq!(plan[1].path, "/srv/iptv/sources/public.txt");
    assert_eq!(plan[1].source_order, 2);
    assert_eq!(plan[1].iptv_source, None);
    assert!(!plan[1].iptv_restricted);

    let items = parse_playlist(
        "CCTV-1,http://sh.test/live.m3u8\n",
        &plan[0].path,
        Origin::Local,
        false,
        plan[0].source_order,
        plan[0].iptv_source.as_deref(),
        plan[0].iptv_restricted,
    )
    .unwrap();
    let stream = items[0].stream.as_ref().unwrap();
    assert_eq!(stream.iptv_source.as_deref(), Some("sh-unicom"));
    assert!(stream.iptv_restricted);
}

#[test]
fn local_source_paths_refuse_remote_addresses() {
    let settings = test_settings("/srv/iptv");
    let entries = parse_source_list("http://a.test/live.m3u\nfile:///data/x.txt\nlocal/y.m3u\n");
    assert_eq!(
        resolve_local_source_path(&settings, &entries[0]),
        Err(PlaylistError::RemoteLocalSource)
    );
    assert_eq!(
        resolve_local_source_path(&settings, &entries[1]).unwrap(),
        "/data/x.txt"
    );
    assert_eq!(
        resolve_local_source_path(&settings, &entries[2]).unwrap(),
        "/srv/iptv/local/y.m3u"
    );
    let (plan, refusal) = plan_local_sources(&settings, &entries);
    assert!(plan.is_empty());
    assert_eq!(refusal, Some(PlaylistError::RemoteLocalSource));
    let later = parse_source_list("local/y.m3u
https://a.test/live.m3u
local/z.m3u
");
    let (plan, refusal) = plan_local_sources(&settings, &later);
    assert_eq!(plan.len(), 1);
    assert_eq!(plan[0].path, "/srv/iptv/local/y.m3u");
    assert_eq!(refusal, Some(PlaylistError::RemoteLocalSource));
}

#[test]
fn parse_playlist_detects_m3u() {
    let m3u = parse_playlist(
        "#EXTM3U\n#EXTINF:-1,Name\nhttp://x/a\n",
        "x",
        Origin::Local,
        false,
        0,
        None,
        false,
    )
    .unwrap();
    assert_eq!(m3u.len(), 1);
    assert_eq!(m3u[0].name, "Name");
    assert_eq!(m3u[0].order, 1_000_000);

    let txt = parse_playlist("Name,http://x/a\n", "x", Origin::Template, false, 0, None, false)
        .unwrap();
    assert_eq!(txt.len(), 1);
    assert_eq!(txt[0].order, 0);
}

#[test]
fn orders_depend_on_origin() {
    assert_eq!(order_for_origin(Origin::Template, 3), 3);
    assert_eq!(order_for_origin(Origin::Local, 3), 1_000_003);
    assert_eq!(order_for_origin(Origin::SubscribeWhitelist, 3), 2_000_003);
    assert_eq!(order_for_origin(Origin::Subscribe, 3), 3_000_003);
}

#[test]
fn aggregates_by_normalized_name_and_orders_channels() {
    let mut settings = test_settings(".");
    settings.open_unmatch_category = false;
    let items = vec![
        template("CCTV-2", "央视", 1),
        template("CCTV-1", "央视", 0),
        parsed_stream("cctv -1", "http://a.test/1.m3u8", None, false),
        parsed_stream("CCTV-1", "http://b.test/1.m3u8", None, false),
        parsed_stream("CCTV-1", "http://a.test/1.m3u8", None, false),
        parsed_stream("Unknown", "http://c.test/x.m3u8", None, false),
    ];
    let channels = aggregate_channels(
        items,
        &settings,
        &AliasMatcher::default(),
        &FilterRules::default(),
    );

    assert_eq!(channels.len(), 1);
    assert_eq!(channels[0].name, "CCTV-1");
    assert_eq!(channels[0].group.as_deref(), Some("央视"));
    let urls: Vec<&str> = channels[0].streams.iter().map(|s| s.url.as_str()).collect();
    assert_eq!(urls, vec!["http://a.test/1.m3u8", "http://b.test/1.m3u8"]);
}

#[test]
fn unmatched_channels_get_their_own_group() {
    let settings = test_settings(".");
    let items = vec![
        template("CCTV-1", "央视", 0),
        parsed_stream("Unknown", "http://c.test/x.m3u8", None, false),
    ];
    let channels = aggregate_channels(
        items,
        &settings,
        &AliasMatcher::default(),
        &FilterRules::default(),
    );
    assert_eq!(channels.len(), 1);
    assert_eq!(channels[0].name, "Unknown");
    assert_eq!(channels[0].group.as_deref(), Some("未匹配频道"));
}

#[test]
fn blacklist_whitelist_and_address_family_filter_streams() {
    let mut settings = test_settings(".");
    settings.ipv_type = "ipv6".into();
    let rules = FilterRules::from_files(Some("bad\n"), Some("CCTV-1,http://[2001:db8::1]/wl.m3u8\n"));
    let items = vec![
        template("CCTV-1", "央视", 0),
        parsed_stream("CCTV-1", "http://[2001:db8::2]/bad.m3u8", None, false),
        parsed_stream("CCTV-1", "http://[2001:db8::3]/ok.m3u8", None, false),
        parsed_stream("CCTV-1", "http://1.2.3.4/v4.m3u8", None, false),
    ];
    let channels = aggregate_channels(items, &settings, &AliasMatcher::default(), &rules);
    let urls: Vec<&str> = channels[0].streams.iter().map(|s| s.url.as_str()).collect();
    assert_eq!(
        urls,
        vec!["http://[2001:db8::1]/wl.m3u8", "http://[2001:db8::3]/ok.m3u8"]
    );
    assert!(channels[0].streams[0].whitelist);
    assert_eq!(channels[0].streams[0].origin, Origin::SubscribeWhitelist);
    assert_eq!(channels[0].streams[0].ipv_type, IpvType::Ipv6);
}

#[test]
fn streams_sort_by_whitelist_origin_and_address() {
    let mut settings = test_settings(".");
    settings.origin_type_prefer = vec!["local".into()];
    let mut channel = Channel {
        name: "A".into(),
        group: None,
        tvg_id: None,
        logo: None,
        streams: vec![
            stream("http://s/2", Origin::Subscribe, false, 0),
            stream("http://s/1", Origin::Subscribe, false, 0),
            stream("http://l/1", Origin::Local, false, 5),
            stream("http://w/1", Origin::Subscribe, true, 9),
        ],
        order: 0,
    };
    sort_channel_streams(&mut channel, &settings);
    let urls: Vec<&str> = channel.streams.iter().map(|s| s.url.as_str()).collect();
    assert_eq!(urls, vec!["http://w/1", "http://l/1", "http://s/1", "http://s/2"]);
}

#[test]
fn limit_keeps_the_first_streams() {
    let mut settings = test_settings(".");
    settings.urls_limit = 2;
    let mut channels = vec![Channel {
        name: "A".into(),
        group: None,
        tvg_id: None,
        logo: None,
        streams: vec![
            stream("http://a/1", Origin::Local, false, 0),
            stream("http://a/2", Origin::Local, false, 0),
            stream("http://a/3", Origin::Local, false, 0),
        ],
        order: 0,
    }];
    limit_channel_streams(&mut channels, &settings);
    assert_eq!(channels[0].streams.len(), 2);
    assert_eq!(channels[0].streams[1].url, "http://a/2");
}

#[test]
fn output_preferences_drop_channels_left_empty() {
    let mut settings = test_settings(".");
    settings.iptv_source_filter = vec!["home".into()];
    let mut restricted = stream("http://a/1", Origin::Local, false, 0);
    restricted.iptv_source = Some("Other".into());
    restricted.iptv_restricted = true;
    let mut channels = vec![Channel {
        name: "A".into(),
        group: None,
        tvg_id: None,
        logo: None,
        streams: vec![restricted],
        order: 0,
    }];
    apply_output_preferences(&mut channels, &settings);
    assert!(channels.is_empty());
}

#[test]
fn iptv_labels_are_matched_in_lower_case() {
    let mut settings = test_settings(".");
    settings.iptv_source_filter = vec!["sh-unicom".into()];
    let entries = parse_source_list("a.m3u IPTV=\"SH-Unicom\"\nb.m3u IPTV=\"zj\"\nc.m3u\n");
    assert!(source_iptv_allowed(&entries[0], &settings));
    assert!(!source_iptv_allowed(&entries[1], &settings));
    assert!(source_iptv_allowed(&entries[2], &settings));
}
