use std::io::Write;
use xfast_manager::addon::{
    auth_response_step, build_action_from_file, build_update_preview, build_xup_request_strategies,
    build_xupdater_plan, channel_to_snapshot_type, choose_preview_credentials,
    collect_available_channels, collect_xup_auth_candidates, compact_error_snippet,
    ensure_since_parameter, expand_xup_auth_candidate, extract_bearer_from_headers,
    extract_bearer_from_text, extract_snapshot_changelog, extract_version_from_text,
    file_needs_local_md5, find_snapshot_version_by_revision, install_total_bytes, is_noop_state,
    merge_action, merge_actions, normalize_semver_token, parse_bearer_token, parse_file_state,
    parse_xup_auth_mode, parse_xup_auth_mode_from_json, product_name, requested_channel,
    resolve_link, resolve_local_version_label, select_snapshot, should_ignore_path,
    snapshot_display_version, snapshot_numeric_revision, snapshot_version_label,
    update_failure_message, validate_download_payload, xupdater_update_result, AttemptLog,
    AuthHeaders, AuthReply, AuthStep, FileStateValue, LocalFileState, RollbackState, RollbackStep,
    XAction, XActionKind, XAuth, XAuthMode, XDownloadTask, XFileEntry, XKeyedSnapshot,
    XPlanContext, XProduct, XRequestAuth, XSnapshot,
};
use xfast_manager::skunk::SkunkUpdateOptions;
use xfast_manager::xupdater::XUpdaterProfile;

fn options(channel: Option<&str>, use_beta: bool) -> SkunkUpdateOptions {
    SkunkUpdateOptions {
        use_beta,
        include_liveries: true,
        apply_blacklist: false,
        rollback_on_failure: true,
        parallel_downloads: None,
        channel: channel.map(|c| c.to_string()),
        fresh_install: false,
    }
}

fn snap(kind: Option<&str>, number: Option<i64>, short: Option<&str>, full: Option<&str>) -> XSnapshot {
    XSnapshot {
        kind: kind.map(|s| s.to_string()),
        has_number_key: number.is_some(),
        number,
        m_number: None,
        package_version: None,
        package_version_alt: None,
        short_desc: short.map(|s| s.to_string()),
        full_desc: full.map(|s| s.to_string()),
        files_link: None,
    }
}

fn listed(snaps: Vec<XSnapshot>) -> XProduct {
    XProduct { name: Some(" Zibo ".to_string()), snapshot_map: None, snapshot_list: Some(snaps) }
}

fn action(path: &str, kind: XActionKind, size: Option<u64>, estimated: u64) -> XAction {
    XAction {
        rel_path: path.to_string(),
        kind,
        download: if kind == XActionKind::Delete {
            None
        } else {
            Some(XDownloadTask {
                rel_path: path.to_string(),
                url: format!("https://h/{}", path),
                expected_md5: None,
                expected_size: size,
            })
        },
        estimated_bytes: estimated,
    }
}

#[test]
fn channels_follow_options() {
    assert_eq!(requested_channel(&options(Some(" Release "), true)), "stable");
    assert_eq!(requested_channel(&options(Some("ALPHA"), false)), "alpha");
    assert_eq!(requested_channel(&options(None, true)), "beta");
    assert_eq!(requested_channel(&options(Some("nightly"), false)), "stable");
    assert_eq!(channel_to_snapshot_type("stable"), "release");
    assert_eq!(channel_to_snapshot_type(" Beta "), "beta");
}

#[test]
fn ignore_list_matches_paths_and_folders() {
    let ignore = vec!["\\Docs".to_string(), "  ".to_string(), "a.txt".to_string()];
    assert!(should_ignore_path("docs/Readme.txt", &ignore));
    assert!(should_ignore_path("A.TXT", &ignore));
    assert!(!should_ignore_path("docsx/a", &ignore));
    assert!(!should_ignore_path("b.txt", &ignore));
}

#[test]
fn file_states_are_read() {
    assert_eq!(parse_file_state(Some(&FileStateValue::Integer(1))), XActionKind::Add);
    assert_eq!(parse_file_state(Some(&FileStateValue::Integer(3))), XActionKind::Delete);
    assert_eq!(parse_file_state(Some(&FileStateValue::Integer(2))), XActionKind::Replace);
    assert_eq!(parse_file_state(Some(&FileStateValue::Text(" Added ".to_string()))), XActionKind::Add);
    assert_eq!(parse_file_state(Some(&FileStateValue::Text("removed".to_string()))), XActionKind::Delete);
    assert_eq!(parse_file_state(None), XActionKind::Replace);
    assert!(is_noop_state(Some(&FileStateValue::Integer(0))));
    assert!(is_noop_state(Some(&FileStateValue::Text(" Keep ".to_string()))));
    assert!(is_noop_state(Some(&FileStateValue::Text(String::new()))));
    assert!(!is_noop_state(None));
    assert!(!is_noop_state(Some(&FileStateValue::Other)));
}

#[test]
fn semver_tokens_are_normalized() {
    assert_eq!(normalize_semver_token("v1.02.003").as_deref(), Some("1.2.3"));
    assert_eq!(normalize_semver_token("040531").as_deref(), Some("4.5.31"));
    assert_eq!(normalize_semver_token("(1.2.3-beta+5)").as_deref(), Some("1.2.3"));
    assert_eq!(normalize_semver_token("V10.0").as_deref(), Some("10.0"));
    assert_eq!(normalize_semver_token("1"), None);
    assert_eq!(normalize_semver_token("1.2.3.4.5"), None);
    assert_eq!(normalize_semver_token("abc"), None);
    assert_eq!(extract_version_from_text("Release v4.05 (build 12)").as_deref(), Some("4.5"));
    assert_eq!(extract_version_from_text("no version here"), None);
}

#[test]
fn snapshot_versions_and_labels() {
    let s = snap(None, Some(42), Some("  "), Some("- bullet 1.2.3\nVersion 2.0.1 notes"));
    assert_eq!(snapshot_display_version(&s).as_deref(), Some("2.0.1"));
    let bare = snap(None, Some(42), None, None);
    assert_eq!(snapshot_version_label("Beta", &bare).as_deref(), Some("beta#42"));
    let kinded = snap(Some(" Release "), Some(-5), None, None);
    assert_eq!(snapshot_version_label("beta", &kinded).as_deref(), Some("release#-5"));
    assert_eq!(snapshot_version_label("beta", &snap(None, None, None, None)), None);
    assert_eq!(snapshot_numeric_revision(&bare), Some(42));
    assert_eq!(extract_snapshot_changelog(&snap(None, None, None, Some("  notes \n"))).as_deref(), Some("notes"));
    assert_eq!(product_name(&listed(vec![])), "Zibo");
}

#[test]
fn snapshots_are_selected_by_channel() {
    let p = listed(vec![snap(Some("beta"), Some(1), None, None), snap(Some("Release"), Some(2), None, None)]);
    assert_eq!(select_snapshot(&p, "stable", true).unwrap().number, Some(2));
    assert_eq!(select_snapshot(&p, "BETA", true).unwrap().number, Some(1));
    let only_alpha = listed(vec![snap(Some("alpha"), Some(3), None, None)]);
    assert!(select_snapshot(&only_alpha, "beta", false).is_none());
    assert_eq!(select_snapshot(&only_alpha, "beta", true).unwrap().number, Some(3));
    let keyed = XProduct {
        name: None,
        snapshot_map: Some(vec![
            XKeyedSnapshot { key: "alpha".to_string(), snapshot: snap(None, Some(10), None, None) },
            XKeyedSnapshot { key: "release".to_string(), snapshot: snap(None, Some(11), None, None) },
        ]),
        snapshot_list: None,
    };
    assert_eq!(select_snapshot(&keyed, "beta", false).unwrap().number, Some(11));
    assert_eq!(select_snapshot(&keyed, " Alpha ", false).unwrap().number, Some(10));
    assert_eq!(product_name(&keyed), "<unnamed-product>");
}

#[test]
fn available_channels_are_ordered() {
    let a = listed(vec![snap(Some("alpha"), None, None, None), snap(Some("Release"), None, None, None), snap(Some("weird"), None, None, None)]);
    let b = listed(vec![snap(Some("beta"), None, None, None)]);
    assert_eq!(collect_available_channels(&[a, b]), vec!["stable", "beta", "alpha"]);
    let c = listed(vec![snap(Some("alpha"), None, None, None)]);
    assert_eq!(collect_available_channels(&[c]), vec!["alpha"]);
}

#[test]
fn revisions_map_to_versions() {
    let products = vec![listed(vec![snap(None, Some(7), Some("Build 1.2.3"), None)])];
    assert_eq!(find_snapshot_version_by_revision(&products, 7).as_deref(), Some("1.2.3"));
    assert_eq!(find_snapshot_version_by_revision(&products, 0), None);
    assert_eq!(find_snapshot_version_by_revision(&products, 8), None);
    let mut profile = XUpdaterProfile {
        host: "https://update.x-plane.org".to_string(),
        login: None,
        license_key: None,
        package_version: Some(7),
        version_label: Some(" v1.0 ".to_string()),
        ignore_list: vec![],
    };
    assert_eq!(resolve_local_version_label(&profile, &products, None).as_deref(), Some("1.0"));
    profile.version_label = Some("custom".to_string());
    assert_eq!(resolve_local_version_label(&profile, &products, None).as_deref(), Some("custom"));
    profile.version_label = None;
    assert_eq!(resolve_local_version_label(&profile, &products, None).as_deref(), Some("1.2.3"));
    profile.package_version = None;
    assert_eq!(
        resolve_local_version_label(&profile, &products, Some("ver 3.1".to_string())).as_deref(),
        Some("3.1")
    );
    assert_eq!(resolve_local_version_label(&profile, &products, None), None);
}

#[test]
fn actions_merge_into_one_per_path() {
    let mut warnings = Vec::new();
    let merged = merge_actions(
        vec![
            action("a", XActionKind::Add, None, 1),
            action("b", XActionKind::Replace, None, 2),
            action("a", XActionKind::Add, None, 3),
            action("b", XActionKind::Delete, None, 0),
            action("c", XActionKind::Replace, None, 4),
            action("c", XActionKind::Add, None, 5),
        ],
        &mut warnings,
    );
    let paths: Vec<&str> = merged.iter().map(|a| a.rel_path.as_str()).collect();
    assert_eq!(paths, vec!["a", "b", "c"]);
    assert_eq!(merged[0].estimated_bytes, 1);
    assert_eq!(merged[1].kind, XActionKind::Delete);
    assert_eq!(merged[2].kind, XActionKind::Replace);
    assert_eq!(
        warnings,
        vec![
            "Duplicate update action for 'a' detected; keeping first one".to_string(),
            "Duplicate update action for 'c' detected; keeping first one".to_string(),
        ]
    );
    let mut list = merged;
    let mut w2 = Vec::new();
    merge_action(&mut list, action("b", XActionKind::Replace, None, 9), &mut w2);
    assert_eq!(list[1].kind, XActionKind::Delete);
    assert!(w2.is_empty());
}

#[test]
fn plan_and_result_count_actions() {
    let context = XPlanContext {
        host: "https://update.x-plane.org".to_string(),
        local_version: Some("1.0".to_string()),
        remote_version: Some("1.1".to_string()),
        actions: vec![
            action("a", XActionKind::Add, Some(10), 7),
            action("b", XActionKind::Replace, None, 5),
            action("c", XActionKind::Delete, None, 0),
        ],
        warnings: vec!["w".to_string()],
    };
    let plan = build_xupdater_plan("aircraft", "B738", &context);
    assert_eq!(plan.provider, "x-updater");
    assert_eq!(plan.add_files, vec!["a"]);
    assert_eq!(plan.replace_files, vec!["b"]);
    assert_eq!(plan.delete_files, vec!["c"]);
    assert_eq!(plan.estimated_download_bytes, 12);
    assert!(plan.has_update);
    assert_eq!(plan.remote_module.as_deref(), Some("https://update.x-plane.org"));
    assert_eq!(install_total_bytes(&context.actions), 10);
    let no_sizes = vec![action("a", XActionKind::Add, None, 7), action("c", XActionKind::Delete, None, 3)];
    assert_eq!(install_total_bytes(&no_sizes), 7);
    let result = xupdater_update_result("aircraft", "B738", &context, &plan);
    assert_eq!(result.updated_files, 2);
    assert_eq!(result.deleted_files, 1);
    assert_eq!(result.message, "Update completed successfully");
    assert_eq!(update_failure_message("boom", None), "Update failed: boom");
    assert_eq!(
        update_failure_message("boom", Some("disk")),
        "Update failed: boom. Rollback also failed: disk"
    );
}

#[test]
fn rollback_undoes_in_reverse() {
    let mut r = RollbackState::new(true);
    r.record_created_path("new1".to_string());
    r.record_created_path("new2".to_string());
    assert!(r.needs_backup("x", true));
    assert!(!r.needs_backup("y", false));
    assert_eq!(r.next_backup_name(), "backup_0");
    r.record_backup("x".to_string(), "/tmp/backup_0".to_string());
    assert!(!r.needs_backup("x", true));
    assert_eq!(r.next_backup_name(), "backup_1");
    let steps = r.rollback_steps();
    assert_eq!(steps.len(), 3);
    assert!(matches!(&steps[0], RollbackStep::RemoveCreated(p) if p == "new2"));
    assert!(matches!(&steps[1], RollbackStep::RemoveCreated(p) if p == "new1"));
    assert!(matches!(&steps[2], RollbackStep::Restore { original, backup } if original == "x" && backup == "/tmp/backup_0"));
    let mut off = RollbackState::new(false);
    off.record_created_path("z".to_string());
    assert!(!off.needs_backup("x", true));
    assert!(off.rollback_steps().is_empty());
}

#[test]
fn links_resolve_against_server() {
    let host = "https://update.x-plane.org";
    assert_eq!(resolve_link(host, " //cdn.example.com/a ").unwrap(), "https://cdn.example.com/a");
    assert_eq!(resolve_link(host, "http://x/y").unwrap(), "http://x/y");
    assert_eq!(resolve_link(host, "update.x-plane.org/api/v2").unwrap(), "https://update.x-plane.org/api/v2");
    assert_eq!(resolve_link(host, "/api/v2/x").unwrap(), "https://update.x-plane.org/api/v2/x");
    assert_eq!(resolve_link(host, "  ").unwrap_err(), "Invalid empty API link");
    assert_eq!(resolve_link("not a url", "rel").unwrap_err(), "Invalid host 'not a url'");
}

#[test]
fn since_parameter_is_added_once() {
    assert_eq!(
        ensure_since_parameter("https://x.example/files?since={since}", 5).unwrap(),
        "https://x.example/files?since=5"
    );
    assert_eq!(ensure_since_parameter("https://x.example/files", 12).unwrap(), "https://x.example/files?since=12");
    assert_eq!(
        ensure_since_parameter("https://x.example/files?since=3", 12).unwrap(),
        "https://x.example/files?since=3"
    );
    assert_eq!(ensure_since_parameter("nope", 1).unwrap_err(), "Invalid URL 'nope'");
}

fn entry(path: Option<&str>, state: Option<FileStateValue>, links: bool) -> XFileEntry {
    XFileEntry {
        path: path.map(|s| s.to_string()),
        state,
        md5: Some(" ABC ".to_string()),
        has_links: links,
        data_link: Some("/dl/f".to_string()),
        compressed_size: Some(10),
        plain_size: Some(20),
    }
}

fn local(exists: bool, is_file: bool, md5: Option<&str>) -> LocalFileState {
    LocalFileState { exists, is_file, md5: md5.map(|s| s.to_string()) }
}

#[test]
fn file_entries_become_actions() {
    let host = "https://h";
    let e = entry(Some("dir\\f.bin"), Some(FileStateValue::Text("new".to_string())), true);
    let a = build_action_from_file(host, &[], &e, false, &local(false, false, None)).unwrap().unwrap();
    assert_eq!(a.rel_path, "dir/f.bin");
    assert_eq!(a.kind, XActionKind::Add);
    assert_eq!(a.estimated_bytes, 10);
    let d = a.download.unwrap();
    assert_eq!(d.url, "https://h/dl/f");
    assert_eq!(d.expected_md5.as_deref(), Some("abc"));
    assert_eq!(d.expected_size, Some(20));
    let del = entry(Some("f"), Some(FileStateValue::Integer(3)), true);
    assert_eq!(build_action_from_file(host, &[], &del, false, &local(true, true, None)).unwrap().unwrap().kind, XActionKind::Delete);
    assert!(build_action_from_file(host, &[], &del, false, &local(false, false, None)).unwrap().is_none());
    let same = entry(Some("f"), None, true);
    assert!(file_needs_local_md5(&same, false, true, true));
    assert!(build_action_from_file(host, &[], &same, false, &local(true, true, Some("ABC"))).unwrap().is_none());
    assert_eq!(
        build_action_from_file(host, &[], &same, true, &local(true, true, Some("abc"))).unwrap().unwrap().kind,
        XActionKind::Replace
    );
    assert!(build_action_from_file(host, &["f".to_string()], &same, false, &local(false, false, None)).unwrap().is_none());
    assert_eq!(
        build_action_from_file(host, &[], &entry(None, None, true), false, &local(false, false, None)).unwrap_err(),
        "x-updater file entry is missing path"
    );
    assert_eq!(
        build_action_from_file(host, &[], &entry(Some("../x"), None, true), false, &local(false, false, None)).unwrap_err(),
        "Path traversal is not allowed: ../x"
    );
    assert_eq!(
        build_action_from_file(host, &[], &entry(Some("dir\\f.bin"), None, false), false, &local(false, false, None)).unwrap_err(),
        "x-updater file entry 'dir/f.bin' is missing links"
    );
}

#[test]
fn bearer_tokens_are_found() {
    assert_eq!(parse_bearer_token("Bearer abc ").as_deref(), Some("abc"));
    assert_eq!(parse_bearer_token("token xyz").as_deref(), Some("xyz"));
    assert_eq!(parse_bearer_token("https://h/api/tokens/T123").as_deref(), Some("T123"));
    assert_eq!(parse_bearer_token("/a/b/").as_deref(), Some("b"));
    assert_eq!(parse_bearer_token(""), None);
    assert_eq!(parse_bearer_token("plain"), None);
    assert_eq!(extract_bearer_from_text("hello\nBearer tok1\n").as_deref(), Some("tok1"));
    let headers = AuthHeaders {
        authorization: Some("Basic abc".to_string()),
        location: None,
        x_auth_token: Some(" tok ".to_string()),
        x_bearer_token: None,
        bearer_token: None,
        token: None,
    };
    assert_eq!(extract_bearer_from_headers(&headers).as_deref(), Some("tok"));
}

#[test]
fn auth_modes_from_replies() {
    let reply = |k: Option<&str>, t: Option<&str>| AuthReply { kind: k.map(|s| s.to_string()), token: t.map(|s| s.to_string()) };
    assert!(matches!(parse_xup_auth_mode_from_json(&reply(Some("None"), None)), XAuthMode::Anonymous));
    assert!(matches!(parse_xup_auth_mode_from_json(&reply(Some("bearer"), Some(" t "))), XAuthMode::Bearer(t) if t == "t"));
    assert!(matches!(parse_xup_auth_mode_from_json(&reply(Some("bearer"), None)), XAuthMode::Basic));
    assert!(matches!(parse_xup_auth_mode_from_json(&reply(None, Some("z"))), XAuthMode::Bearer(t) if t == "z"));
    assert!(matches!(parse_xup_auth_mode_from_json(&reply(Some("oauth"), Some("z"))), XAuthMode::Basic));
    let none = AuthHeaders { authorization: None, location: None, x_auth_token: None, x_bearer_token: None, bearer_token: None, token: None };
    assert!(matches!(parse_xup_auth_mode(&none, true, None, None), XAuthMode::Basic));
    assert!(matches!(parse_xup_auth_mode(&none, false, None, Some("ok\nBearer q")), XAuthMode::Bearer(t) if t == "q"));
}

#[test]
fn auth_candidates_expand_and_dedup() {
    assert_eq!(expand_xup_auth_candidate("https://h", "abc"), vec!["abc", "Bearer abc", "Token abc"]);
    assert_eq!(expand_xup_auth_candidate("https://h", "Bearer abc"), vec!["Bearer abc"]);
    assert_eq!(
        expand_xup_auth_candidate("https://h", "/api/auth/T9"),
        vec!["/api/auth/T9", "https://h/api/auth/T9", "T9", "Bearer T9", "Token T9"]
    );
    assert_eq!(
        expand_xup_auth_candidate("https://h", "https://h/x/T1"),
        vec!["https://h/x/T1", "/x/T1", "T1", "Bearer T1", "Token T1"]
    );
    let headers = AuthHeaders {
        authorization: None,
        location: Some("/api/auth/T9".to_string()),
        x_auth_token: None,
        x_bearer_token: None,
        bearer_token: None,
        token: None,
    };
    let got = collect_xup_auth_candidates("https://h", &headers, &vec![], None, &XAuthMode::Bearer("T9".to_string()));
    assert_eq!(got, vec!["/api/auth/T9", "https://h/api/auth/T9", "T9", "Bearer T9", "Token T9"]);
}

#[test]
fn request_strategies_are_ordered_and_unique() {
    let auth = XAuth {
        mode: XAuthMode::Bearer("tokB".to_string()),
        login: "l".to_string(),
        license_key: "k".to_string(),
        auth_header_candidates: vec![" tokA ".to_string(), "  ".to_string()],
    };
    let labels: Vec<String> = build_xup_request_strategies(&auth).into_iter().map(|s| s.label).collect();
    assert_eq!(
        labels,
        vec!["authorization-only", "authorization+userkey", "bearer+userkey", "bearer-only", "basic+userkey", "basic-only", "userkey-only"]
    );
    let anon = XAuth {
        mode: XAuthMode::Anonymous,
        login: "l".to_string(),
        license_key: "k".to_string(),
        auth_header_candidates: vec!["x".to_string(), "x".to_string()],
    };
    let s = build_xup_request_strategies(&anon);
    let labels: Vec<&str> = s.iter().map(|s| s.label.as_str()).collect();
    assert_eq!(labels, vec!["authorization-only", "authorization+userkey", "userkey-only", "basic+userkey", "basic-only"]);
    assert!(matches!(&s[0].auth, XRequestAuth::Authorization(v) if v == "x"));
}

#[test]
fn auth_replies_decide_next_step() {
    assert_eq!(auth_response_step(1, 4, 200, None), AuthStep::Done);
    assert_eq!(auth_response_step(1, 4, 202, Some(" 30 ")), AuthStep::RetryAfter(10));
    assert_eq!(auth_response_step(2, 4, 429, Some("x")), AuthStep::RetryAfter(1));
    assert_eq!(auth_response_step(1, 4, 429, Some("0")), AuthStep::RetryAfter(1));
    assert_eq!(auth_response_step(4, 4, 429, None), AuthStep::Again);
    assert_eq!(auth_response_step(1, 4, 401, None), AuthStep::Fail);
    assert_eq!(auth_response_step(1, 4, 301, None), AuthStep::Again);
}

#[test]
fn error_snippets_and_attempt_logs() {
    assert_eq!(compact_error_snippet("  a \n\t b  "), "a b");
    assert_eq!(compact_error_snippet(&"x".repeat(300)), "x".repeat(180));
    let mut log = AttemptLog::new();
    assert_eq!(log.final_error("fallback"), "fallback");
    log.record_status("basic-only", "401 Unauthorized", "  denied ", "x-updater request failed: https://h/u -> HTTP ");
    assert_eq!(
        log.final_error("fallback"),
        "x-updater request failed: https://h/u -> HTTP 401 Unauthorized (denied). Attempts: basic-only:401 Unauthorized:denied"
    );
    log.record("bearer-only:ERR".to_string(), "timeout".to_string());
    assert_eq!(
        log.final_error("fallback"),
        "timeout. Attempts: basic-only:401 Unauthorized:denied, bearer-only:ERR"
    );
}

#[test]
fn payloads_are_checked_by_md5_and_size() {
    let data = b"hello".to_vec();
    let hex = format!("{:x}", md5::compute(&data));
    let task = |md5: Option<String>, size: Option<u64>| XDownloadTask {
        rel_path: "f".to_string(),
        url: "https://h/f".to_string(),
        expected_md5: md5,
        expected_size: size,
    };
    assert_eq!(validate_download_payload(&task(Some(hex.to_uppercase()), Some(5)), &data).unwrap(), data);
    assert_eq!(
        validate_download_payload(&task(Some("0000".to_string()), None), &data).unwrap_err(),
        format!("MD5 mismatch for 'f': expected 0000, got {}", hex)
    );
    let mut enc = flate2::write::GzEncoder::new(Vec::new(), flate2::Compression::default());
    enc.write_all(&data).unwrap();
    let gz = enc.finish().unwrap();
    assert_eq!(validate_download_payload(&task(Some(hex.clone()), Some(5)), &gz).unwrap(), data);
    assert_eq!(
        validate_download_payload(&task(None, Some(3)), &data).unwrap_err(),
        "Size mismatch for 'f': expected 3, got 5"
    );
    assert!(validate_download_payload(&task(None, Some(0)), &data).is_ok());
}

#[test]
fn preview_uses_first_product_and_channels() {
    let products = vec![listed(vec![snap(Some("release"), Some(3), Some("Version 1.2.3"), Some(" notes "))])];
    let p = build_update_preview("aircraft", "B738", &options(None, false), &products, Some("1.0".to_string())).unwrap();
    assert_eq!(p.provider, "x-updater");
    assert_eq!(p.target_version.as_deref(), Some("1.2.3"));
    assert_eq!(p.selected_channel, "stable");
    assert_eq!(p.available_channels, vec!["stable"]);
    assert_eq!(p.changelog.as_deref(), Some("notes"));
    assert_eq!(
        build_update_preview("aircraft", "B738", &options(None, false), &vec![], None).unwrap_err(),
        "x-updater returned no selectable products"
    );
    let profile = XUpdaterProfile {
        host: "h".to_string(),
        login: Some("me".to_string()),
        license_key: None,
        package_version: None,
        version_label: None,
        ignore_list: vec![],
    };
    assert_eq!(
        choose_preview_credentials(&None, &Some(" key ".to_string()), &profile).unwrap(),
        ("me".to_string(), "key".to_string())
    );
    assert_eq!(
        choose_preview_credentials(&Some("  ".to_string()), &None, &profile).unwrap_err(),
        "x-updater profile is missing license key"
    );
}
