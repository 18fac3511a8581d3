use iptv_rs::source_list::{disable_source_text, parse_source_list, SourceSection};

#[test]
fn parses_ua_iptv_source_and_whitelist() {
    let entries = parse_source_list(
        r#"
https://a.test/live.m3u IPTV="home" UA="Agent A"
[WHITELIST]
https://b.test/live.txt UA=AgentB
"#,
    );

    assert_eq!(entries.len(), 2);
    assert_eq!(entries[0].user_agent.as_deref(), Some("Agent A"));
    assert_eq!(entries[0].iptv_source.as_deref(), Some("home"));
    assert!(entries[0].iptv_restricted);
    assert_eq!(entries[0].section, SourceSection::Default);
    assert_eq!(entries[1].user_agent.as_deref(), Some("AgentB"));
    assert_eq!(entries[1].iptv_source, None);
    assert!(!entries[1].iptv_restricted);
    assert_eq!(entries[1].section, SourceSection::Whitelist);
}

#[test]
fn parses_local_paths_and_plain_source_labels() {
    let entries = parse_source_list(
        r#"
config/local/sh-unicom.m3u IPTV="sh-unicom"
file:///data/public.txt SOURCE=public
"#,
    );

    assert_eq!(entries.len(), 2);
    assert_eq!(entries[0].url, "config/local/sh-unicom.m3u");
    assert_eq!(entries[0].iptv_source.as_deref(), Some("sh-unicom"));
    assert!(entries[0].iptv_restricted);
    assert_eq!(entries[1].url, "file:///data/public.txt");
    assert_eq!(entries[1].iptv_source.as_deref(), Some("public"));
    assert!(!entries[1].iptv_restricted);
}

#[test]
fn disables_the_first_matching_entry() {
    let text = "# list\nhttps://a.test/x.m3u UA=\"A\"\n  https://b.test/y.m3u\nhttps://a.test/x.m3u\n";
    assert_eq!(
        disable_source_text(text, "https://a.test/x.m3u").as_deref(),
        Some("# list\n#https://a.test/x.m3u UA=\"A\"\n  https://b.test/y.m3u\nhttps://a.test/x.m3u\n")
    );
    assert_eq!(
        disable_source_text("  https://b.test/y.m3u", "https://b.test/y.m3u").as_deref(),
        Some("#  https://b.test/y.m3u")
    );
    assert_eq!(disable_source_text(text, "https://none.test/"), None);
    assert_eq!(
        disable_source_text("#https://a.test/x.m3u\n", "https://a.test/x.m3u"),
        None
    );
}

#[test]
fn disabled_entries_are_not_read_back() {
    let text = "https://a.test/x.m3u\nhttps://b.test/y.m3u\n";
    let disabled = disable_source_text(text, "https://a.test/x.m3u").unwrap();
    let entries = parse_source_list(&disabled);
    let enabled: Vec<&str> = entries
        .iter()
        .filter(|e| e.enabled)
        .map(|e| e.url.as_str())
        .collect();
    assert_eq!(enabled, vec!["https://b.test/y.m3u"]);
}
