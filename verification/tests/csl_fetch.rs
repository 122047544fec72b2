use xfast_manager::csl::{
    collect_scan_paths, csl_download_retry_delay_secs, description_from_info_text,
    description_retry_delay_ms, CslPath,
};

#[test]
fn description_is_first_nonblank_line() {
    assert_eq!(description_from_info_text("\n   \r\n  Airbus A320neo  \nsecond"), Some("Airbus A320neo".to_string()));
    assert_eq!(description_from_info_text(" \n\t\n"), None);
    assert_eq!(description_from_info_text(""), None);
}

#[test]
fn description_retries_wait_longer_each_time() {
    assert_eq!(description_retry_delay_ms(0), Some(300));
    assert_eq!(description_retry_delay_ms(1), Some(600));
    assert_eq!(description_retry_delay_ms(2), None);
    assert_eq!(description_retry_delay_ms(u32::MAX), None);
}

#[test]
fn download_retries_double_their_wait() {
    let waits: Vec<Option<u64>> = (0..6).map(csl_download_retry_delay_secs).collect();
    assert_eq!(waits, vec![None, Some(1), Some(2), Some(4), Some(8), None]);
}

#[test]
fn custom_scan_paths_are_added_once() {
    let detected = vec![CslPath {
        path: "/xp/Resources/plugins/xPilot/Resources/CSL".to_string(),
        source: "auto".to_string(),
        plugin_name: Some("xPilot".to_string()),
    }];
    let custom = vec![
        "/extra/csl".to_string(),
        "/xp/Resources/plugins/xPilot/Resources/CSL".to_string(),
        "/extra/csl".to_string(),
    ];
    let (paths, names) = collect_scan_paths(detected, &custom);
    assert_eq!(paths.len(), 2);
    assert_eq!(paths[1].source, "custom");
    assert_eq!(paths[1].plugin_name, None);
    assert_eq!(names, vec!["/xp/Resources/plugins/xPilot/Resources/CSL".to_string(), "/extra/csl".to_string()]);
}
