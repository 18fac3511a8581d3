use iptv_rs::rules::{format_name, AliasMatcher, FilterRules};

fn fmt(name: &str) -> String {
    let chars: Vec<char> = name.chars().collect();
    format_name(&chars).into_iter().collect()
}

#[test]
fn alias_regex_maps_to_primary() {
    let mut matcher = AliasMatcher::default();
    assert!(matcher.add_pattern(r"(?i)^cctv[-\s_]*0?1$", "CCTV-1"));

    assert_eq!(matcher.primary_name("cctv 01"), "CCTV-1");
}

#[test]
fn whitelist_supports_exact_and_keywords() {
    let mut rules = FilterRules::default();
    rules.insert_whitelist_exact("CCTV-1", vec!["http://a".into()]);
    rules.insert_whitelist_keywords("", vec!["trusted".into()]);

    assert!(rules.is_whitelisted("http://a", "CCTV-1"));
    assert!(rules.is_whitelisted("http://trusted/live", "CCTV-2"));
    assert_eq!(rules.whitelist_urls_for("CCTV-1"), vec!["http://a"]);
}

#[test]
fn invalid_patterns_are_not_added() {
    let mut matcher = AliasMatcher::default();
    assert!(!matcher.add_pattern("(", "X"));
    assert_eq!(matcher.primary_name("("), "(");
}

#[test]
fn alias_files_map_aliases_formatted_names_and_patterns() {
    let matcher = AliasMatcher::from_text(
        "# comment\nCCTV-1,中央一套,re:^CCTV0?1 ?HD$\nlonely\nCCTV-5+,CCTV5plus\n",
    );
    assert_eq!(matcher.primary_name("中央一套"), "CCTV-1");
    assert_eq!(matcher.primary_name("CCTV1 HD"), "CCTV-1");
    assert_eq!(matcher.primary_name("cctv1"), "CCTV-1");
    assert_eq!(matcher.primary_name("CCTV-1"), "CCTV-1");
    assert_eq!(matcher.primary_name("CCTV5plus"), "CCTV-5+");
    assert_eq!(matcher.primary_name("lonely"), "lonely");
    assert_eq!(matcher.primary_name("Other"), "Other");
}

#[test]
fn formats_names_for_matching() {
    assert_eq!(fmt("CCTV-1 高清"), "cctv1");
    assert_eq!(fmt("CCTV 5plus (备用)"), "cctv5+");
    assert_eq!(fmt("湖南卫视[HD]"), "湖南卫视");
    assert_eq!(fmt("东方卫视｜4K"), "东方卫视");
}

#[test]
fn blacklist_and_whitelist_files() {
    let rules = FilterRules::from_files(
        Some("# comment\n  bad.example  \n\nspam\n"),
        Some("CCTV-1,http://a\nhttp://global\n[KEYWORDS]\nCCTV-2,cdn\ntrusted\n[other]\nCCTV-3,http://ignored\n"),
    );
    assert!(rules.is_blacklisted("http://bad.example/x"));
    assert!(rules.is_blacklisted("http://x/spam"));
    assert!(!rules.is_blacklisted("http://good/x"));
    assert!(rules.is_whitelisted("http://global", "anything"));
    assert!(rules.is_whitelisted("http://cdn.test/x", "CCTV-2"));
    assert!(!rules.is_whitelisted("http://cdn.test/x", "CCTV-1"));
    assert!(rules.is_whitelisted("http://x/trusted", "CCTV-9"));
    assert!(rules.is_whitelisted("http://ignored", "CCTV-3"));
    assert_eq!(rules.whitelist_urls_for("CCTV-1"), vec!["http://global", "http://a"]);
    let none = FilterRules::from_files(None, None);
    assert!(!none.is_blacklisted("http://bad.example/x"));
    assert!(none.whitelist_urls_for("CCTV-1").is_empty());
}
