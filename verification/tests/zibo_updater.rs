use xfast_manager::zibo::{
    build_drive_search_query, drive_probe_contains_quota_exceeded,
    drive_probe_failed_only_due_to_missing_files, drive_source_order_for_seed,
    escape_drive_query_literal, is_zibo_aircraft, latest_release_from_catalog,
    local_version_state_of_text, parse_local_version, parse_release_catalog, parse_release_entry,
    plan_zibo_update, read_local_version_for_scan, releases_for_plan, should_offer_update,
    xml_entity_decode, zibo_drive_sources, LocalVersionState, VersionTriple, ZiboInstallMode,
    ZiboRelease,
};

#[test]
fn zibo_detection_excludes_default_folders() {
    assert!(is_zibo_aircraft("B737-800X", "b738.acf"));
    assert!(is_zibo_aircraft("B737-800X", "b738_4k.acf"));
    assert!(!is_zibo_aircraft("Boeing 737-800", "b738.acf"));
    assert!(!is_zibo_aircraft("Boeing B737-800", "b738_4k.acf"));
    assert!(!is_zibo_aircraft("B737-800X", "a320.acf"));
}

#[test]
fn local_version_parser_is_strict() {
    assert_eq!(
        parse_local_version("4.05.31").map(VersionTriple::display_string),
        Some("4.05.31".to_string())
    );
    assert!(parse_local_version("40531").is_none());
    assert!(parse_local_version("v4.05.31").is_none());
}

#[test]
fn rss_parser_picks_latest_numeric_release() {
    let xml = r#"
        <rss>
          <channel>
            <item>
              <title>B737-800X_XP12_4_05_full.zip</title>
              <link>https://example.com/full.torrent</link>
              <description>Full</description>
            </item>
            <item>
              <title>B738X_XP12_4_05_02.zip</title>
              <link>https://example.com/02.torrent</link>
              <description>Fix</description>
            </item>
            <item>
              <title>B738X_XP12_4_05_31.zip</title>
              <link>https://example.com/31.torrent</link>
              <description>Fix</description>
            </item>
          </channel>
        </rss>
        "#;

    let releases = parse_release_catalog(xml).unwrap();
    let release = latest_release_from_catalog(&releases).unwrap();
    assert_eq!(release.version_string(), "4.05.31");
    assert_eq!(release.title, "B738X_XP12_4_05_31.zip");
}

#[test]
fn plan_zibo_update_uses_clean_install_for_major_mismatch() {
    let local = LocalVersionState::Parsed(VersionTriple::new(4, 4, 18));
    let releases = vec![
        ZiboRelease {
            version: VersionTriple::new(4, 5, 0),
            title: "B737-800X_XP12_4_05_full.zip".to_string(),
        },
        ZiboRelease {
            version: VersionTriple::new(4, 5, 31),
            title: "B738X_XP12_4_05_31.zip".to_string(),
        },
    ];

    let planned = plan_zibo_update(&local, &releases).unwrap().unwrap();
    assert!(matches!(planned.install_mode, ZiboInstallMode::MajorClean));
    assert_eq!(planned.primary_release.version_string(), "4.05.00");
    assert_eq!(
        planned
            .follow_up_patch
            .as_ref()
            .map(ZiboRelease::version_string),
        Some("4.05.31".to_string())
    );
}

#[test]
fn drive_source_order_flips_with_seed() {
    let even_order = drive_source_order_for_seed(0);
    let odd_order = drive_source_order_for_seed(1);

    assert_eq!(even_order[0].folder_id, zibo_drive_sources()[0].folder_id);
    assert_eq!(odd_order[0].folder_id, zibo_drive_sources()[1].folder_id);
}

#[test]
fn drive_query_escapes_exact_archive_name() {
    let query = build_drive_search_query("folder'1", "B738X_'special'.zip");
    assert_eq!(
        query,
        "'folder\\'1' in parents and name = 'B738X_\\'special\\'.zip' and trashed = false"
    );
}

fn release(major: u32, minor: u32, patch: u32, title: &str) -> ZiboRelease {
    ZiboRelease { version: VersionTriple::new(major, minor, patch), title: title.to_string() }
}

#[test]
fn plan_patches_within_the_same_branch() {
    let local = LocalVersionState::Parsed(VersionTriple::new(4, 5, 2));
    let releases = vec![release(4, 5, 0, "a_4_05_full.zip"), release(4, 5, 31, "a_4_05_31.zip")];
    let planned = plan_zibo_update(&local, &releases).unwrap().unwrap();
    assert!(matches!(planned.install_mode, ZiboInstallMode::Patch));
    assert_eq!(planned.primary_release.version_string(), "4.05.31");
    assert!(planned.follow_up_patch.is_none());
    assert_eq!(releases_for_plan(&planned).len(), 1);
}

#[test]
fn plan_is_empty_when_up_to_date() {
    let local = LocalVersionState::Parsed(VersionTriple::new(4, 5, 31));
    let releases = vec![release(4, 5, 31, "a_4_05_31.zip")];
    assert!(plan_zibo_update(&local, &releases).unwrap().is_none());
}

#[test]
fn plan_fails_without_full_package_or_releases() {
    let releases = vec![release(4, 6, 3, "a_4_06_03.zip")];
    let err = plan_zibo_update(&LocalVersionState::Missing, &releases).unwrap_err();
    assert_eq!(err, "Latest Zibo branch 4.06.03 does not expose a full package in the RSS feed");
    let err = plan_zibo_update(&LocalVersionState::Missing, &[]).unwrap_err();
    assert_eq!(err, "No usable Zibo release was found in the RSS feed");
}

#[test]
fn release_titles_follow_the_archive_grammar() {
    let full = parse_release_entry("  B737-800X_XP12_4_05_FULL.ZIP ").unwrap();
    assert_eq!(full.version, VersionTriple::new(4, 5, 0));
    assert_eq!(full.title, "B737-800X_XP12_4_05_FULL.ZIP");
    assert!(parse_release_entry("4_05_31.zip").is_none());
    assert!(parse_release_entry("x_4_05_3a.zip").is_none());
    assert!(parse_release_entry("x_4_05_31.rar").is_none());
    assert_eq!(parse_release_entry("x_1_2_3_4.zip").unwrap().version, VersionTriple::new(2, 3, 4));
}

#[test]
fn catalog_sorts_and_drops_repeated_titles() {
    let xml = "<item><title>b_4_05_31.zip</title></item><item><title>a_4_05_full.zip</title></item><item><title>b_4_05_31.zip</title></item><item><title>none</title></item>";
    let releases = parse_release_catalog(xml).unwrap();
    assert_eq!(releases.len(), 2);
    assert_eq!(releases[0].title, "a_4_05_full.zip");
    assert_eq!(releases[1].title, "b_4_05_31.zip");
    assert!(parse_release_catalog("<rss></rss>").is_err());
}

#[test]
fn entities_are_decoded_in_order() {
    let decoded = xml_entity_decode(&"a&amp;lt;b&quot;".chars().collect::<Vec<char>>());
    assert_eq!(decoded.iter().collect::<String>(), "a&lt;b\"");
    assert_eq!(escape_drive_query_literal("a\\b'c"), "a\\\\b\\'c");
}

#[test]
fn local_versions_are_read_and_compared() {
    assert!(should_offer_update(Some("4.05.02"), "4.05.31"));
    assert!(!should_offer_update(Some("4.05.31"), "4.05.31"));
    assert!(should_offer_update(None, "4.05.31"));
    assert!(should_offer_update(Some("junk"), "4.05.31"));
    assert!(!should_offer_update(Some("4.05.02"), "junk"));
    assert_eq!(read_local_version_for_scan(Some(" 4.5.7 \nrest")), Some("4.05.07".to_string()));
    assert_eq!(read_local_version_for_scan(Some("x")), None);
    assert!(matches!(local_version_state_of_text(""), LocalVersionState::Invalid(_)));
}

#[test]
fn drive_probe_messages_are_classified() {
    assert!(drive_probe_failed_only_due_to_missing_files(
        "B738X.zip was not found in Google Drive source drive-source-a"
    ));
    assert!(!drive_probe_failed_only_due_to_missing_files(
        "B738X.zip was not found in Google Drive source a; Failed to search b"
    ));
    assert!(drive_probe_contains_quota_exceeded("status 403 reason=downloadQuotaExceeded"));
    assert!(!drive_probe_contains_quota_exceeded("status 403"));
}
