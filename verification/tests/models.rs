use iptv_rs::hosts::infer_ipv_type;
use iptv_rs::models::{Channel, IpvType, Origin, ParsedChannel, Stream};

fn stream(url: &str) -> Stream {
    Stream {
        url: url.into(),
        origin: Origin::Local,
        whitelist: false,
        source_order: 0,
        iptv_source: None,
        iptv_restricted: false,
        ipv_type: IpvType::Ipv4,
    }
}

fn item(name: &str, group: Option<&str>, url: Option<&str>, order: usize) -> ParsedChannel {
    ParsedChannel {
        name: name.into(),
        group: group.map(ToString::to_string),
        tvg_id: None,
        logo: None,
        stream: url.map(stream),
        order,
    }
}

fn ipv(url: &str) -> IpvType {
    let chars: Vec<char> = url.chars().collect();
    infer_ipv_type(&chars)
}

#[test]
fn merging_fills_gaps_keeps_the_smaller_order_and_skips_known_urls() {
    let mut c = Channel::new(item("A", None, Some("http://x/1"), 5));
    c.merge(item("A2", Some("G"), Some("http://x/1"), 9));
    c.merge(item("A3", Some("H"), Some("http://x/2"), 2));
    c.merge(item("A4", None, None, 1));
    assert_eq!(c.name, "A");
    assert_eq!(c.group.as_deref(), Some("G"));
    assert_eq!(c.order, 1);
    let urls: Vec<&str> = c.streams.iter().map(|s| s.url.as_str()).collect();
    assert_eq!(urls, vec!["http://x/1", "http://x/2"]);
}

#[test]
fn guide_keys_are_the_id_then_the_name() {
    let mut c = Channel::new(item("Name", None, None, 0));
    assert_eq!(c.epg_keys(), vec!["Name"]);
    c.tvg_id = Some("id".into());
    assert_eq!(c.epg_keys(), vec!["id", "Name"]);
}

#[test]
fn origins_and_families_have_fixed_names_and_ranks() {
    assert_eq!(Origin::Template.priority(), 0);
    assert_eq!(Origin::SubscribeWhitelist.priority(), 1);
    assert_eq!(Origin::Local.priority(), 2);
    assert_eq!(Origin::Subscribe.priority(), 3);
    assert_eq!(IpvType::Ipv6.as_str(), "ipv6");
    assert_eq!(IpvType::Unknown.as_str(), "unknown");
}

#[test]
fn infers_address_families() {
    assert_eq!(ipv("http://1.2.3.4/x"), IpvType::Ipv4);
    assert_eq!(ipv("http://example.com/x"), IpvType::Ipv4);
    assert_eq!(ipv("http://[2001:db8::1]:8080/x"), IpvType::Ipv6);
    assert_eq!(ipv("rtp://[ff02::1]/x"), IpvType::Ipv6);
    assert_eq!(ipv("no scheme here"), IpvType::Unknown);
}
