use iptv_rs::epg::EpgAggregator;
use iptv_rs::models::{Channel, IpvType, Origin, Stream};

fn channel(name: &str, tvg_id: Option<&str>) -> Channel {
    Channel {
        name: name.into(),
        group: None,
        tvg_id: tvg_id.map(ToString::to_string),
        logo: None,
        streams: vec![Stream {
            url: "http://a".into(),
            origin: Origin::Local,
            whitelist: false,
            source_order: 0,
            iptv_source: None,
            iptv_restricted: false,
            ipv_type: IpvType::Ipv4,
        }],
        order: 0,
    }
}

#[test]
fn extracts_and_filters_epg() {
    let xml = br#"<?xml version="1.0"?>
<tv>
<channel id="cctv1"><display-name>CCTV-1</display-name></channel>
<channel id="other"><display-name>Other</display-name></channel>
<programme channel="cctv1" start="20240101000000 +0800"><title>News</title></programme>
<programme channel="other" start="20240101000000 +0800"><title>Other</title></programme>
</tv>"#;
    let mut epg = EpgAggregator::default();
    epg.add_document("test", xml).unwrap();
    epg.retain_for_channels(&[channel("CCTV-1", Some("cctv1"))]);

    assert!(epg.has_channel("cctv1"));
    assert_eq!(epg.programme_count(), 1);
}

#[test]
fn keeps_first_channel_and_skips_repeated_programmes() {
    let first = br#"<tv><channel id="a"><display-name>First</display-name></channel>
<programme channel="a"><title>X</title></programme></tv>"#;
    let second = br#"<tv><channel id="a"><display-name>Second</display-name></channel>
<programme channel="a"><title>X</title></programme></tv>"#;
    let mut epg = EpgAggregator::new();
    epg.add_document("one", first).unwrap();
    epg.add_document("one", first).unwrap();
    assert_eq!(epg.programme_count(), 1);
    epg.add_document("two", second).unwrap();
    assert_eq!(epg.channel_count(), 1);
    assert_eq!(epg.programme_count(), 2);
    let doc = epg.render_document("20240101000000 +0000");
    assert!(doc.contains("First"));
    assert!(!doc.contains("Second"));
}

#[test]
fn reads_escaped_attributes_and_self_closing_elements() {
    let xml = br#"<tv><channel id='a&amp;b'/><channelx id="no"/><programme channel="a&amp;b" /></tv>"#;
    let mut epg = EpgAggregator::new();
    epg.add_document("s", xml).unwrap();
    assert!(epg.has_channel("a&b"));
    assert!(!epg.has_channel("no"));
    assert_eq!(epg.channel_count(), 1);
    assert_eq!(epg.programme_count(), 1);
}

#[test]
fn renders_channels_by_increasing_id() {
    let xml = br#"<tv><channel id="b">B</channel><channel id="a">A</channel>
<programme channel="b">P1</programme></tv>"#;
    let mut epg = EpgAggregator::new();
    epg.add_document("s", xml).unwrap();
    let doc = epg.render_document("D");
    assert_eq!(
        doc,
        "<?xml version=\"1.0\" encoding=\"UTF-8\"?>\n<tv generator-info-name=\"iptv-rs\" generator-info-url=\"https://github.com/Guovin/iptv-api\" date=\"D\">\n<channel id=\"a\">A</channel>\n<channel id=\"b\">B</channel>\n<programme channel=\"b\">P1</programme>\n</tv>\n"
    );
}

#[test]
fn retaining_for_no_channels_keeps_everything() {
    let xml = br#"<tv><channel id="a">A</channel><programme channel="z">P</programme></tv>"#;
    let mut epg = EpgAggregator::new();
    epg.add_document("s", xml).unwrap();
    epg.retain_for_channels(&[]);
    assert_eq!(epg.channel_count(), 1);
    assert_eq!(epg.programme_count(), 1);
}

#[test]
fn channel_names_match_guide_ids_without_spaces_and_case() {
    let xml = br#"<tv><channel id="Hunan TV">A</channel><channel id="x">X</channel>
<programme channel="HUNANTV">P</programme></tv>"#;
    let mut epg = EpgAggregator::new();
    epg.add_document("s", xml).unwrap();
    epg.retain_for_channels(&[channel("hunan tv", None)]);
    assert!(epg.has_channel("Hunan TV"));
    assert!(!epg.has_channel("x"));
    assert_eq!(epg.programme_count(), 1);
}

#[test]
fn invalid_utf8_is_decoded_lossily() {
    let mut bytes = b"<tv><channel id=\"a\">".to_vec();
    bytes.push(0xff);
    bytes.extend_from_slice(b"</channel></tv>");
    let mut epg = EpgAggregator::new();
    epg.add_document("s", &bytes).unwrap();
    let doc = epg.render_document("D");
    assert!(doc.contains("<channel id=\"a\">\u{FFFD}</channel>"));
}
