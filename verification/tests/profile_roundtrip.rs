use xfast_manager::xupdater::{cfg_credentials_text, parse_profile_cfg};

#[test]
fn written_credentials_read_back() {
    let before = "#X-Updater\nhost|https://example.org\nUser = old\nLICENSE=old-key\nlogin|also old\n";
    let written = cfg_credentials_text(before, "pilot@example.com", "AB:CD=EF");
    let profile = parse_profile_cfg(&written);
    assert_eq!(profile.login, Some("pilot@example.com".to_string()));
    assert_eq!(profile.license_key, Some("AB:CD=EF".to_string()));
    assert_eq!(profile.host, "https://example.org");
}

#[test]
fn credentials_written_into_empty_profile() {
    let written = cfg_credentials_text("", "me", "k");
    assert!(written.starts_with("#ClientApp properties\n"));
    let profile = parse_profile_cfg(&written);
    assert_eq!(profile.login, Some("me".to_string()));
    assert_eq!(profile.license_key, Some("k".to_string()));
    assert_eq!(profile.host, "https://update.x-plane.org");
}
