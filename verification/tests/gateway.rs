use std::collections::HashSet;
use xfast_manager::gateway::{
    airport_match_score, compute_release_comparison, decode_master_zip_blob,
    enrich_search_result_for_release, find_matching_release, gateway_feature_name,
    gateway_retry_delay, gateway_status_error_message, gateway_status_is_retryable,
    normalize_gateway_id, normalize_icao, normalize_xplane_version_token,
    parse_xplane_version_for_compare, release_context_for, xplane_version_from_log_text,
    GatewayAirportDetail, GatewayAirportSearchResult, GatewayReleaseInfo,
    GatewaySceneryInstallPayload, GatewayScenerySummary, ReleaseVersion,
};

fn make_gateway_detail(
    recommended_scenery_id: Option<i64>,
    sceneries: Vec<GatewayScenerySummary>,
) -> GatewayAirportDetail {
    GatewayAirportDetail {
        icao: "KSEA".to_string(),
        airport_name: Some("Seattle".to_string()),
        scenery_count: Some(sceneries.len() as i64),
        recommended_scenery_id,
        recommended_artist: None,
        recommended_accepted_at: None,
        sceneries,
        ahead_of_current_xplane: None,
        current_xplane_release_version: None,
        current_xplane_release_date: None,
        current_xplane_scenery_id: None,
        current_xplane_artist: None,
        current_xplane_approved_date: None,
    }
}

fn make_scenery(id: i64, approved_date: &str, recommended: bool) -> GatewayScenerySummary {
    GatewayScenerySummary {
        scenery_id: id,
        artist: Some(format!("Artist {}", id)),
        status: Some("Approved".to_string()),
        approved_date: Some(approved_date.to_string()),
        comment: None,
        recommended,
    }
}

#[test]
fn normalizes_xplane_versions_for_release_matching() {
    assert_eq!(normalize_xplane_version_token("12.4.1-r1-52b26ed9").as_deref(), Some("12.4.1"));
    assert_eq!(normalize_xplane_version_token("12.00r6").as_deref(), Some("12.0.0"));
    assert_eq!(normalize_xplane_version_token("  v12.1.4 ").as_deref(), Some("12.1.4"));
}

#[test]
fn release_comparison_marks_gateway_ahead_when_recommended_not_in_release() {
    let detail = make_gateway_detail(
        Some(200),
        vec![
            make_scenery(200, "2026-01-01T00:00:00.000Z", true),
            make_scenery(150, "2025-12-01T00:00:00.000Z", false),
        ],
    );
    let release_scenery = HashSet::from([150]);

    let comparison = compute_release_comparison(&detail, Some(&release_scenery))
        .expect("comparison should be available");

    assert!(comparison.ahead_of_current_xplane);
    assert_eq!(comparison.current_xplane_scenery.scenery_id, Some(150));
}

#[test]
fn release_comparison_marks_up_to_date_when_recommended_in_release() {
    let detail = make_gateway_detail(
        Some(200),
        vec![
            make_scenery(200, "2026-01-01T00:00:00.000Z", true),
            make_scenery(150, "2025-12-01T00:00:00.000Z", false),
        ],
    );
    let release_scenery = HashSet::from([200]);

    let comparison = compute_release_comparison(&detail, Some(&release_scenery))
        .expect("comparison should be available");

    assert!(!comparison.ahead_of_current_xplane);
    assert_eq!(comparison.current_xplane_scenery.scenery_id, Some(200));
}

#[test]
fn gateway_temporary_statuses_are_retryable_without_html_body() {
    assert!(gateway_status_is_retryable(502));
    assert!(gateway_status_is_retryable(503));
    assert!(gateway_status_is_retryable(504));
    assert!(gateway_status_is_retryable(429));

    let message = gateway_status_error_message(502);
    assert!(message.contains("temporarily unavailable"));
    assert!(!message.to_lowercase().contains("bad gateway"));
    assert!(!message.contains("<html"));
}

#[test]
fn version_tokens_cover_odd_inputs() {
    assert_eq!(normalize_xplane_version_token("VV11").as_deref(), Some("11.0.0"));
    assert_eq!(normalize_xplane_version_token("12.1.4.5.6").as_deref(), Some("12.1.4"));
    assert_eq!(normalize_xplane_version_token("x-12.3 beta").as_deref(), Some("12.3.0"));
    assert_eq!(normalize_xplane_version_token(".12"), None);
    assert_eq!(normalize_xplane_version_token("  "), None);
    assert_eq!(parse_xplane_version_for_compare("12.00r6"), Some(ReleaseVersion { major: 12, minor: 0, patch: 0 }));
}

#[test]
fn latest_release_submission_wins_and_ties_go_to_the_last() {
    let detail = make_gateway_detail(
        Some(300),
        vec![
            make_scenery(150, "2025-12-01", false),
            make_scenery(120, "2025-12-01", false),
            make_scenery(100, "2024-01-01", false),
        ],
    );
    let release: HashSet<i64> = HashSet::from([150, 120, 100]);
    let comparison = compute_release_comparison(&detail, Some(&release)).unwrap();
    assert_eq!(comparison.current_xplane_scenery.scenery_id, Some(150));
    assert!(comparison.ahead_of_current_xplane);
    let none: HashSet<i64> = HashSet::new();
    let empty = compute_release_comparison(&detail, Some(&none)).unwrap();
    assert_eq!(empty.current_xplane_scenery.scenery_id, None);
    assert!(empty.ahead_of_current_xplane);
    assert!(compute_release_comparison(&detail, None).is_none());
}

fn airport(icao: &str, name: Option<&str>, recommended: Option<i64>) -> GatewayAirportSearchResult {
    GatewayAirportSearchResult {
        icao: icao.to_string(),
        airport_name: name.map(|s| s.to_string()),
        scenery_count: None,
        recommended_scenery_id: recommended,
        recommended_artist: None,
        recommended_accepted_at: None,
        ahead_of_current_xplane: None,
    }
}

#[test]
fn airports_are_ranked_by_match() {
    let a = airport("KSEA", Some("Seattle Tacoma Intl"), Some(5));
    assert_eq!(airport_match_score(&a, "ksea"), Some(0));
    assert_eq!(airport_match_score(&a, "ks"), Some(1));
    assert_eq!(airport_match_score(&a, "seattle"), Some(2));
    assert_eq!(airport_match_score(&a, "tacoma"), Some(3));
    assert_eq!(airport_match_score(&a, "intl sea"), Some(4));
    assert_eq!(airport_match_score(&a, "portland"), None);
    let release: HashSet<i64> = HashSet::from([4]);
    let enriched = enrich_search_result_for_release(a, Some(&release));
    assert_eq!(enriched.ahead_of_current_xplane, Some(true));
}

#[test]
fn small_gateway_helpers() {
    assert_eq!(gateway_retry_delay(0), 350);
    assert_eq!(gateway_retry_delay(1), 900);
    assert_eq!(gateway_retry_delay(7), 1500);
    assert_eq!(gateway_status_error_message(429), "Gateway service is busy right now. Please wait a moment and try again.");
    assert!(!gateway_status_is_retryable(404));
    assert_eq!(normalize_icao(" ksea "), Ok("KSEA".to_string()));
    assert_eq!(normalize_icao("  "), Err("ICAO is required".to_string()));
    assert_eq!(normalize_gateway_id(Some(0)), None);
    assert_eq!(normalize_gateway_id(Some(7)), Some(7));
    assert_eq!(gateway_feature_name(95), Some("Contains Flatten Polygon".to_string()));
    assert_eq!(gateway_feature_name(3), None);
    assert_eq!(
        xplane_version_from_log_text("Log.txt for X-Plane 12.1.4-r1 (build 121412)\nmore"),
        Some("12.1.4-r1".to_string())
    );
    assert_eq!(xplane_version_from_log_text("Log.txt for 11.55r2\n"), Some("11.55r2".to_string()));
    assert_eq!(xplane_version_from_log_text("nothing"), None);
}

#[test]
fn archives_are_decoded_from_base64() {
    let mut payload = GatewaySceneryInstallPayload {
        scenery_id: 1,
        icao: None,
        airport_name: None,
        status: None,
        artist: None,
        approved_date: None,
        comment: None,
        features: Vec::new(),
        master_zip_blob: Some("aGVs\nbG8=".to_string()),
    };
    assert_eq!(decode_master_zip_blob(&payload), Ok(b"hello".to_vec()));
    payload.master_zip_blob = Some("!!".to_string());
    assert!(decode_master_zip_blob(&payload).unwrap_err().starts_with("Failed to decode Gateway scenery archive: "));
    payload.master_zip_blob = None;
    assert_eq!(decode_master_zip_blob(&payload), Err("Gateway scenery is missing masterZipBlob".to_string()));
}

#[test]
fn releases_are_matched_to_builds() {
    let releases = vec![
        GatewayReleaseInfo { version: "12.0.0".to_string(), date: "d0".to_string(), parsed_version: ReleaseVersion { major: 12, minor: 0, patch: 0 } },
        GatewayReleaseInfo { version: "12.1.0".to_string(), date: "d1".to_string(), parsed_version: ReleaseVersion { major: 12, minor: 1, patch: 0 } },
        GatewayReleaseInfo { version: "12.2.0".to_string(), date: "d2".to_string(), parsed_version: ReleaseVersion { major: 12, minor: 2, patch: 0 } },
    ];
    assert_eq!(find_matching_release(ReleaseVersion { major: 12, minor: 1, patch: 4 }, &releases), Some(1));
    assert_eq!(find_matching_release(ReleaseVersion { major: 11, minor: 9, patch: 9 }, &releases), None);
    let ctx = release_context_for(Some("12.1.4-r1".to_string()), Some(&releases));
    assert!(ctx.comparison_available);
    assert_eq!(ctx.matched_release_version, Some("12.1.0".to_string()));
    let none = release_context_for(Some("junk".to_string()), Some(&releases));
    assert!(!none.comparison_available);
    assert_eq!(none.detected_version_raw, Some("junk".to_string()));
}
