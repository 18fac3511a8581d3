use iptv_rs::config::{parse_ini_settings, Settings};
use iptv_rs::models::Origin;
use iptv_rs::source_list::parse_source_list;
use iptv_rs::update::{
    disable_after_parse, guide_action, guide_source_wanted, subscription_action,
    subscription_origin, subscription_wanted, SourceAction,
};

fn settings(text: &str) -> Settings {
    Settings::from_values(".".into(), &parse_ini_settings(text))
}

#[test]
fn failed_or_blank_sources_are_disabled_when_asked() {
    let on = settings("");
    let off = settings("open_auto_disable_source = false");
    assert_eq!(subscription_action(&on, None), SourceAction::Disable);
    assert_eq!(subscription_action(&on, Some("  \n")), SourceAction::Disable);
    assert_eq!(subscription_action(&off, Some("")), SourceAction::Skip);
    assert_eq!(subscription_action(&off, Some("A,http://x")), SourceAction::Use);
    assert_eq!(guide_action(&on, Some(&b""[..])), SourceAction::Disable);
    assert_eq!(guide_action(&off, None), SourceAction::Skip);
    assert_eq!(guide_action(&on, Some(&b" "[..])), SourceAction::Use);
    assert!(disable_after_parse(&on, 0));
    assert!(!disable_after_parse(&on, 1));
    assert!(!disable_after_parse(&off, 0));
}

#[test]
fn wanted_sources_and_their_origins() {
    let s = settings("iptv_source_filter = home");
    let entries = parse_source_list(
        "#https://a.test/off.m3u\nhttps://a.test/x.m3u IPTV=\"other\"\nhttps://a.test/y.m3u IPTV=\"HOME\"\n[WHITELIST]\nhttps://w.test/z.m3u\n",
    );
    let disabled = entries.iter().find(|e| !e.enabled).unwrap();
    assert!(!subscription_wanted(disabled, &s));
    assert!(!guide_source_wanted(disabled));
    let enabled: Vec<_> = entries.iter().filter(|e| e.enabled).collect();
    assert!(!subscription_wanted(enabled[0], &s));
    assert!(guide_source_wanted(enabled[0]));
    assert!(subscription_wanted(enabled[1], &s));
    assert_eq!(subscription_origin(enabled[1]), Origin::Subscribe);
    assert_eq!(subscription_origin(enabled[2]), Origin::SubscribeWhitelist);
}
