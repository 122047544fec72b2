use xfast_manager::csl::{
    build_csl_package_info, clamp_parallel_downloads, compare_package_exact,
    compare_package_quick, description_cache_key, detect_csl_paths, file_needs_hash,
    group_into_packages, install_task_key, is_altitude_metadata, normalize_request_id,
    package_file_relative_path, parse_index, resolve_altitude_api_base, resolve_csl_api_base,
    resolve_server_base_url, sanitize_manifest_file_name, sanitize_request_id, CslDownloadControl,
    FileEntry, LocalFileCheck, PackageData,
};

const DEFAULT_SERVER_BASE_URL: &str = "http://x-csl.ru";

fn make_test_package_data(name: &str, files: Vec<(&str, u64, Option<&str>)>) -> PackageData {
    PackageData {
        name: name.to_string(),
        header_size: 0,
        header_date: String::new(),
        header_time: String::new(),
        files: files
            .into_iter()
            .map(|(path, size_bytes, md5_hash)| FileEntry {
                path: path.to_string(),
                size_bytes,
                md5_hash: md5_hash.map(str::to_string),
            })
            .collect(),
    }
}

/// What the app finds on disk for a file holding `contents`, hashing it
/// only when the comparison asks for it.
fn check_for(file: &FileEntry, contents: &[u8], verify_hashes: bool) -> LocalFileCheck {
    let len = contents.len() as u64;
    let md5 = if file_needs_hash(file, len, verify_hashes) {
        Some(format!("{:x}", md5::compute(contents)))
    } else {
        None
    };
    LocalFileCheck { exists: true, len, md5 }
}

#[test]
fn clamp_parallel_downloads_limits_to_twelve() {
    assert_eq!(clamp_parallel_downloads(None), 1);
    assert_eq!(clamp_parallel_downloads(Some(0)), 1);
    assert_eq!(clamp_parallel_downloads(Some(8)), 8);
    assert_eq!(clamp_parallel_downloads(Some(12)), 12);
    assert_eq!(clamp_parallel_downloads(Some(64)), 12);
}

#[test]
fn install_task_key_includes_source() {
    assert_eq!(install_task_key("csl", "B738"), "csl:B738");
    assert_eq!(install_task_key("altitude", "ALTITUDE"), "altitude:ALTITUDE");
}

#[test]
fn resolve_server_urls_trim_and_default() {
    assert_eq!(resolve_server_base_url(None), DEFAULT_SERVER_BASE_URL);
    assert_eq!(resolve_server_base_url(Some("https://example.com///")), "https://example.com");
    assert_eq!(resolve_csl_api_base(Some("https://example.com/")), "https://example.com/package");
}

#[test]
fn compare_package_quick_marks_size_matched_package_as_checking() {
    let pkg = make_test_package_data("B738", vec![("B738/model.obj", 4, Some("mismatch"))]);
    let checks = vec![check_for(&pkg.files[0], b"abcd", false)];
    let (status, files_to_update, update_size) = compare_package_quick(&pkg, &checks);

    assert_eq!(status, "checking");
    assert_eq!(files_to_update, 0);
    assert_eq!(update_size, 0);
}

#[test]
fn compare_package_quick_detects_size_mismatch_without_hashing() {
    let pkg = make_test_package_data("B738", vec![("B738/model.obj", 5, Some("mismatch"))]);
    let checks = vec![check_for(&pkg.files[0], b"abcd", false)];
    let (status, files_to_update, update_size) = compare_package_quick(&pkg, &checks);

    assert_eq!(status, "needs_update");
    assert_eq!(files_to_update, 1);
    assert_eq!(update_size, 5);
}

#[test]
fn compare_package_exact_detects_hash_mismatch_after_quick_pass() {
    let pkg = make_test_package_data("B738", vec![("B738/model.obj", 4, Some("mismatch"))]);
    let checks = vec![check_for(&pkg.files[0], b"abcd", true)];
    let (status, files_to_update, update_size) = compare_package_exact(&pkg, &checks);

    assert_eq!(status, "needs_update");
    assert_eq!(files_to_update, 1);
    assert_eq!(update_size, 4);
}

#[test]
fn compare_package_exact_marks_hash_matched_package_as_up_to_date() {
    let expected_hash = format!("{:x}", md5::compute(b"abcd"));
    let pkg = make_test_package_data("B738", vec![("B738/model.obj", 4, Some(&expected_hash))]);
    let checks = vec![check_for(&pkg.files[0], b"abcd", true)];
    let (status, files_to_update, update_size) = compare_package_exact(&pkg, &checks);

    assert_eq!(status, "up_to_date");
    assert_eq!(files_to_update, 0);
    assert_eq!(update_size, 0);
}

#[test]
fn missing_files_are_outdated() {
    let pkg = make_test_package_data("B738", vec![("B738/a.obj", 3, None), ("B738/b.obj", 7, None)]);
    let checks = vec![
        LocalFileCheck { exists: false, len: 0, md5: None },
        LocalFileCheck { exists: true, len: 7, md5: None },
    ];
    assert_eq!(compare_package_exact(&pkg, &checks), ("needs_update".to_string(), 1, 3));
    assert_eq!(package_file_relative_path("B738", "B738/a.obj"), "a.obj");
    assert_eq!(package_file_relative_path("B738", "A320/a.obj"), "A320/a.obj");
}

#[test]
fn index_lines_are_parsed_and_grouped() {
    let index = "0 header line\n11%B738%100%x%2024-01-02%10:00\n10%B738/a.obj%60%abc%d%t\n10%A320/b.obj%oops%Reserve%d%t\n15%B738/dir%0%%d%t\n10%B738/c.obj%40%%d%t\n12%X%1%%d%t\nbroken%line\n";
    let entries = parse_index(index);
    assert_eq!(entries.len(), 5);
    assert_eq!(entries[1].md5_hash, Some("abc".to_string()));
    assert_eq!(entries[2].size_bytes, 0);
    assert_eq!(entries[2].md5_hash, None);
    let packages = group_into_packages(&entries);
    assert_eq!(packages.len(), 2);
    assert_eq!(packages[0].name, "A320");
    assert_eq!(packages[0].header_size, 0);
    assert_eq!(packages[1].name, "B738");
    assert_eq!(packages[1].header_size, 100);
    assert_eq!(packages[1].files.len(), 2);
    assert_eq!(packages[1].files[1].path, "B738/c.obj");
    let info = build_csl_package_info(&packages[1], "not_installed", 2, 100);
    assert_eq!(info.total_size_bytes, 100);
    assert_eq!(info.last_updated, "2024-01-02 10:00");
    let a320 = build_csl_package_info(&packages[0], "checking", 0, 0);
    assert_eq!(a320.total_size_bytes, 0);
    assert_eq!(a320.last_updated, "");
}

#[test]
fn download_registry_refuses_duplicates_until_released() {
    let mut control = CslDownloadControl::new();
    let reg = control.register("csl:B738".to_string()).unwrap();
    assert!(!control.is_cancelled("csl:B738"));
    let err = control.register("csl:B738".to_string()).err().unwrap();
    assert_eq!(err, "Download already running for csl:B738");
    control.cancel("csl:B738");
    control.cancel("csl:A320");
    assert!(control.is_cancelled("csl:B738"));
    assert!(!control.is_cancelled("csl:A320"));
    control.release(reg);
    assert!(!control.is_cancelled("csl:B738"));
    assert!(control.register("csl:B738".to_string()).is_ok());
}

#[test]
fn small_helpers_follow_their_formats() {
    assert_eq!(description_cache_key("http://s", "B738"), "http://s::B738");
    assert_eq!(resolve_altitude_api_base(Some("  ")), "http://x-csl.ru/package/ALTITUDE");
    assert_eq!(sanitize_request_id("  ab c/d:1  "), Some("abcd:1".to_string()));
    assert_eq!(sanitize_request_id(" /// "), None);
    assert_eq!(normalize_request_id(Some("req-1"), "csl_scan"), "req-1");
    let generated = normalize_request_id(None, "csl_scan");
    assert!(generated.starts_with("csl-scan-"));
    assert_eq!(generated.len(), "csl-scan-".len() + 32);
    assert_eq!(sanitize_manifest_file_name("A/B C.json"), "A_B_C.json");
    assert!(is_altitude_metadata("ALTITUDE/x-csl-info.info"));
    assert!(is_altitude_metadata("ALTITUDE/files.idx"));
    assert!(!is_altitude_metadata("ALTITUDE/PilotUI/list.xml"));
    let paths = detect_csl_paths(&[None, Some("/xp/Resources/plugins/xPilot/Resources/CSL".to_string())]);
    assert_eq!(paths.len(), 1);
    assert_eq!(paths[0].source, "auto");
    assert_eq!(paths[0].plugin_name, Some("xPilot".to_string()));
}
