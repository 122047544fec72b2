use xfast_manager::xupdater::{
    cfg_credentials_text, dedup_ignore_list, encode_cfg_value, find_profile_in_folder,
    is_profile_file_name, normalize_host, parse_cfg_value, parse_ignore_entries,
    parse_lenient_i64, parse_profile_cfg, parse_tagged_update_url, tag_host_as_update_url,
    XUpdaterProfile,
};

fn chars(s: &str) -> Vec<char> {
    s.chars().collect()
}

fn text(v: &[char]) -> String {
    v.iter().collect()
}

#[test]
fn profile_file_names_ignore_case() {
    assert!(is_profile_file_name("X-Updater.CNF"));
    assert!(is_profile_file_name("xupdater_profile.json"));
    assert!(!is_profile_file_name("readme.txt"));
}

#[test]
fn hosts_are_normalised() {
    assert_eq!(normalize_host(None), "https://update.x-plane.org");
    assert_eq!(normalize_host(Some("  ")), "https://update.x-plane.org");
    assert_eq!(normalize_host(Some("update.example.com/")), "https://update.example.com");
    assert_eq!(normalize_host(Some("http://a.example.com/x#frag")), "http://a.example.com/x");
    assert_eq!(tag_host_as_update_url("update.example.com"), "x-updater:https://update.example.com");
}

#[test]
fn tagged_update_urls_are_read_back() {
    assert_eq!(parse_tagged_update_url("X-UPDATER:  "), Some("https://update.x-plane.org".to_string()));
    assert_eq!(
        parse_tagged_update_url("x-updater:https://update.example.com/"),
        Some("https://update.example.com".to_string())
    );
    assert_eq!(parse_tagged_update_url("https://update.example.com"), None);
    let tagged = tag_host_as_update_url("update.example.com");
    assert_eq!(parse_tagged_update_url(&tagged), Some("https://update.example.com".to_string()));
}

#[test]
fn cfg_values_are_unescaped() {
    assert_eq!(text(&parse_cfg_value(&chars("  \"a\\:b\\=c\\n\"  "))), "a:b=c");
    assert_eq!(text(&parse_cfg_value(&chars("'x\\\\y'"))), "x\\y");
    assert_eq!(encode_cfg_value("a:b=c\\d", '='), "a\\:b\\=c\\\\d");
    assert_eq!(encode_cfg_value("a:b", '|'), "a:b");
}

#[test]
fn ignore_entries_are_normalised_and_deduplicated() {
    let entries = parse_ignore_entries(&chars(" ./liveries\\A ; /prefs.txt,,\n./liveries/A"));
    assert_eq!(entries, vec!["liveries/A".to_string(), "prefs.txt".to_string(), "liveries/A".to_string()]);
    assert_eq!(dedup_ignore_list(entries), vec!["liveries/A".to_string(), "prefs.txt".to_string()]);
}

#[test]
fn package_versions_are_read_leniently() {
    assert_eq!(parse_lenient_i64(&chars(" 42 ")), Some(42));
    assert_eq!(parse_lenient_i64(&chars("v1.2.3")), Some(123));
    assert_eq!(parse_lenient_i64(&chars("none")), None);
}

#[test]
fn cfg_profiles_are_parsed() {
    let profile = parse_profile_cfg(
        "# comment\nHost = update.example.com\nlogin|pilot\nkey=abc\\=1\nversion = 7\nignore = a;b;a\nunknown=1\nempty=\n",
    );
    assert_eq!(profile.host, "https://update.example.com");
    assert_eq!(profile.login, Some("pilot".to_string()));
    assert_eq!(profile.license_key, Some("abc=1".to_string()));
    assert_eq!(profile.package_version, Some(7));
    assert_eq!(profile.version_label, Some("7".to_string()));
    assert_eq!(profile.ignore_list, vec!["a".to_string(), "b".to_string()]);
    assert!(profile.has_credentials());
}

#[test]
fn credentials_are_written_into_profiles() {
    let updated = cfg_credentials_text("# header\nlogin=old\nserver=x\n", "me", "k:1");
    assert_eq!(updated, "# header\nlogin=me\nserver=x\nkey=k\\:1\nconfigVersion=3\n");
    let fresh = cfg_credentials_text("", "me", "k");
    assert_eq!(
        fresh,
        "#ClientApp properties\nhost=https\\://update.x-plane.org\nlogin=me\nkey=k\nconfigVersion=3\n"
    );
    let back = parse_profile_cfg(&updated);
    assert_eq!(back.login, Some("me".to_string()));
    assert_eq!(back.license_key, Some("k:1".to_string()));
}

fn profile(login: Option<&str>, key: Option<&str>) -> XUpdaterProfile {
    XUpdaterProfile {
        host: "https://h".to_string(),
        login: login.map(|s| s.to_string()),
        license_key: key.map(|s| s.to_string()),
        package_version: None,
        version_label: None,
        ignore_list: Vec::new(),
    }
}

#[test]
fn profile_with_credentials_is_preferred() {
    let found = find_profile_in_folder(vec![profile(Some("a"), None), profile(Some("b"), Some("k"))], false).unwrap();
    assert_eq!(found.login, Some("b".to_string()));
    let first = find_profile_in_folder(vec![profile(Some("a"), None), profile(None, None)], false).unwrap();
    assert_eq!(first.login, Some("a".to_string()));
    let native = find_profile_in_folder(Vec::new(), true).unwrap();
    assert_eq!(native.host, "https://update.x-plane.org");
    assert!(find_profile_in_folder(Vec::new(), false).is_none());
}

#[test]
fn cfg_values_written_after_equals_read_back() {
    for v in ["a\\b", "x|y", "C:\\path\\to=it", "\\lead", "end\\", "", "n\\n"] {
        let encoded = encode_cfg_value(v, '=');
        assert_eq!(text(&parse_cfg_value(&chars(&encoded))), v);
        assert_eq!(encode_cfg_value(v, '|'), v);
    }
}

#[test]
fn tagged_host_reads_back() {
    for host in ["example.org", "https://update.example.com/", "http://a.b/c/"] {
        let tagged = tag_host_as_update_url(host);
        assert_eq!(parse_tagged_update_url(&tagged), Some(tagged[10..].to_string()));
    }
    assert_eq!(parse_tagged_update_url("X-UPDATER:  "), Some("https://update.x-plane.org".to_string()));
    assert_eq!(parse_tagged_update_url("https://example.org"), None);
}
