use iptv_rs::config::{parse_ini_settings, Settings};
use iptv_rs::models::{Channel, IpvType, Origin, Stream};
use iptv_rs::output::{escape_attr, render_m3u, render_txt};

fn stream(url: &str) -> Stream {
    Stream {
        url: url.into(),
        origin: Origin::Local,
        whitelist: false,
        source_order: 0,
        iptv_source: None,
        iptv_restricted: false,
        ipv_type: IpvType::Ipv4,
    }
}

fn settings(ini: &str) -> Settings {
    Settings::from_values(".".into(), &parse_ini_settings(ini))
}

fn channel(name: &str, group: Option<&str>, urls: &[&str]) -> Channel {
    Channel {
        name: name.into(),
        group: group.map(ToString::to_string),
        tvg_id: None,
        logo: None,
        streams: urls.iter().map(|u| stream(u)).collect(),
        order: 0,
    }
}

#[test]
fn writes_text_playlists_with_group_headings() {
    let channels = vec![
        channel("A", Some("G1"), &["http://a/1", "http://a/2"]),
        channel("Empty", Some("G0"), &[]),
        channel("B", Some("G1"), &["http://b/1"]),
        channel("C", None, &["http://c/1"]),
    ];
    let off = settings("open_update_time = false\n");
    assert_eq!(
        render_txt(&channels, &off, "2024-01-01 08:00:00"),
        "G1,#genre#\nA,http://a/1\nA,http://a/2\nB,http://b/1\n未分组,#genre#\nC,http://c/1\n"
    );
    assert_eq!(render_txt(&[], &off, "2024-01-01 08:00:00"), "");
}

#[test]
fn writes_the_update_time_row_where_the_settings_ask() {
    let channels = vec![channel("A", Some("G"), &["http://a/1"])];
    let top = settings("");
    assert!(top.open_update_time);
    assert_eq!(
        render_txt(&channels, &top, "2024-01-01 08:00:00"),
        "# 更新时间: 2024-01-01 08:00:00\nG,#genre#\nA,http://a/1\n"
    );
    let bottom = settings("update_time_position = bottom\n");
    assert_eq!(
        render_txt(&channels, &bottom, "2024-01-01 08:00:00"),
        "G,#genre#\nA,http://a/1\n# 更新时间: 2024-01-01 08:00:00\n"
    );
    assert_eq!(
        render_txt(&[], &top, "t"),
        "# 更新时间: t\n"
    );
    let off = settings("open_update_time = false\nupdate_time_position = top\n");
    assert_eq!(render_txt(&channels, &off, "t"), "G,#genre#\nA,http://a/1\n");
}

#[test]
fn writes_m3u_playlists() {
    let mut c = channel("A\"B", Some("G<1>"), &["http://a/1"]);
    c.tvg_id = Some("id&1".into());
    c.logo = Some("http://logo".into());
    let channels = vec![c, channel("E", None, &[])];
    assert_eq!(
        render_m3u(&channels),
        "#EXTM3U\n#EXTINF:-1 tvg-id=\"id&amp;1\" tvg-name=\"A&quot;B\" tvg-logo=\"http://logo\" group-title=\"G&lt;1&gt;\",A\"B\nhttp://a/1\n"
    );
    let plain = vec![channel("X", None, &["u1", "u2"])];
    assert_eq!(
        render_m3u(&plain),
        "#EXTM3U\n#EXTINF:-1 tvg-id=\"X\" tvg-name=\"X\" tvg-logo=\"\" group-title=\"未分组\",X\nu1\n#EXTINF:-1 tvg-id=\"X\" tvg-name=\"X\" tvg-logo=\"\" group-title=\"未分组\",X\nu2\n"
    );
}

#[test]
fn escapes_attribute_values() {
    assert_eq!(escape_attr("a&\"<>"), "a&amp;&quot;&lt;&gt;");
    assert_eq!(escape_attr("&amp;"), "&amp;amp;");
}
