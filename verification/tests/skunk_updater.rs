use xfast_manager::skunk::{
    check_downloaded_file, join_url, skunk_apply_steps, skunk_download_targets,
    skunk_install_start, skunk_parallel_downloads, skunk_update_result, SkunkApplyStep,
    SkunkInstallStart,
    build_plan_internal, ensure_http_or_https, is_livery_path, normalize_manifest_path,
    parse_bool, parse_cfg_lines, parse_path_set, parse_sizes_list, parse_whitelist,
    read_local_config, remote_config_from_text, select_module_url, target_location,
    update_local_cfg_version_text, whitelist_entry_needs_crc, LocalConfig, LocalEntryState,
    PreparedUpdate, RemoteConfig, RemoteManifest, SizeEntry, SkunkUpdateOptions,
    WhitelistEntry,
};

#[test]
fn manifest_paths_are_normalized() {
    assert_eq!(normalize_manifest_path(" ./a\\b/./c ").unwrap(), "a/b/c");
    assert_eq!(normalize_manifest_path("././/x//y/").unwrap(), "x/y");
    assert_eq!(normalize_manifest_path("/plugins/ a .txt ").unwrap(), "plugins/a .txt");
}

#[test]
fn manifest_paths_reject_empty_traversal_and_absolute() {
    assert_eq!(normalize_manifest_path("   ").unwrap_err(), "Path is empty");
    assert_eq!(normalize_manifest_path("./././").unwrap_err(), "Path is empty");
    assert_eq!(
        normalize_manifest_path("a/../b").unwrap_err(),
        "Path traversal is not allowed: a/../b"
    );
    assert_eq!(
        normalize_manifest_path("C:/Windows").unwrap_err(),
        "Absolute paths are not allowed: C:/Windows"
    );
}

#[test]
fn livery_paths_are_detected_case_insensitively() {
    assert!(is_livery_path("liveries/KLM/a.png"));
    assert!(is_livery_path("objects/Liveries/x.png"));
    assert!(!is_livery_path("objects/livery.png"));
}

#[test]
fn cfg_lines_keep_last_value_and_skip_comments() {
    let m = parse_cfg_lines("# c\n Module | http://x \nVERSION|1\nversion|2\nnope\n|empty key\n");
    assert_eq!(m.get("module").map(|s| s.as_str()), Some("http://x"));
    assert_eq!(m.get("version").map(|s| s.as_str()), Some("2"));
    assert_eq!(m.len(), 2);
}

#[test]
fn bool_settings_accept_common_words() {
    assert_eq!(parse_bool(" Yes "), Some(true));
    assert_eq!(parse_bool("ON"), Some(true));
    assert_eq!(parse_bool("0"), Some(false));
    assert_eq!(parse_bool("off"), Some(false));
    assert_eq!(parse_bool("maybe"), None);
}

#[test]
fn module_urls_must_be_http() {
    assert!(ensure_http_or_https("https://example.com/mod").is_ok());
    assert!(ensure_http_or_https("http://example.com").is_ok());
    assert_eq!(
        ensure_http_or_https("ftp://example.com").unwrap_err(),
        "Only HTTP(S) module URLs are supported"
    );
    assert_eq!(
        ensure_http_or_https("not a url").unwrap_err(),
        "Invalid module URL 'not a url'"
    );
}

#[test]
fn remote_config_requires_version() {
    let c = remote_config_from_text("version| 2.1 \nlocked|yes\n").unwrap();
    assert_eq!(c.version, "2.1");
    assert!(c.locked);
    let c = remote_config_from_text("version|3\n").unwrap();
    assert!(!c.locked);
    assert_eq!(
        remote_config_from_text("locked|no\n").unwrap_err(),
        "Remote config is missing 'version|'"
    );
}

#[test]
fn local_config_reads_module_and_beta() {
    let c = read_local_config(
        "/x/skunkcrafts_updater.cfg",
        "module|https://a.example/m\nversion|1.0\nliveries|false\n",
        Some("module|https://b.example/beta\n"),
    )
    .unwrap();
    assert_eq!(c.module, "https://a.example/m");
    assert_eq!(c.version.as_deref(), Some("1.0"));
    assert!(!c.liveries);
    assert_eq!(c.beta_module.as_deref(), Some("https://b.example/beta"));
    assert_eq!(select_module_url(&c, true), "https://b.example/beta");
    assert_eq!(select_module_url(&c, false), "https://a.example/m");
    assert_eq!(
        read_local_config("cfg", "version|1\n", None).unwrap_err(),
        "Missing 'module|' in cfg"
    );
}

#[test]
fn whitelist_later_line_wins_and_bad_lines_warn() {
    let mut warnings = Vec::new();
    let entries = parse_whitelist(
        "a/b.txt|10\nbroken\n../x|1\nc.txt|zz\na\\b.txt|-1\n",
        &mut warnings,
    );
    assert_eq!(entries.len(), 1);
    assert_eq!(entries[0].path, "a/b.txt");
    assert_eq!(entries[0].crc32, -1);
    assert_eq!(warnings.len(), 3);
    assert_eq!(warnings[0], "Skipped malformed whitelist line 'broken'");
    assert!(warnings[1].starts_with("Skipped unsafe whitelist path '../x'"));
    assert_eq!(warnings[2], "Skipped whitelist path 'c.txt' due to invalid CRC 'zz'");
}

#[test]
fn path_set_takes_first_field() {
    let mut warnings = Vec::new();
    let set = parse_path_set("a.txt|123\nb.txt\na.txt\n..\n", &mut warnings);
    assert_eq!(set, vec!["a.txt".to_string(), "b.txt".to_string()]);
    assert_eq!(warnings.len(), 1);
}

#[test]
fn sizes_list_parses_sizes() {
    let mut warnings = Vec::new();
    let sizes = parse_sizes_list("a.txt|100\nb.txt|x\nc\n", &mut warnings);
    assert_eq!(sizes.len(), 1);
    assert_eq!(sizes[0].path, "a.txt");
    assert_eq!(sizes[0].size, 100);
    assert_eq!(warnings.len(), 2);
}

fn prepared() -> PreparedUpdate {
    PreparedUpdate {
        local: LocalConfig {
            module: "https://a.example/m".to_string(),
            version: Some("1.0".to_string()),
            liveries: true,
            beta_module: None,
        },
        remote: RemoteConfig { version: "1.1".to_string(), locked: true },
        manifest: RemoteManifest {
            whitelist: vec![
                WhitelistEntry { path: "new.txt".to_string(), crc32: 5 },
                WhitelistEntry { path: "changed.txt".to_string(), crc32: 7 },
                WhitelistEntry { path: "same.txt".to_string(), crc32: 9 },
                WhitelistEntry { path: "liveries/a.png".to_string(), crc32: 1 },
                WhitelistEntry { path: "once.txt".to_string(), crc32: -1 },
                WhitelistEntry { path: "folder".to_string(), crc32: 3 },
            ],
            ignorelist: vec![],
            oncelist: vec![],
            sizes: vec![
                SizeEntry { path: "new.txt".to_string(), size: 100 },
                SizeEntry { path: "changed.txt".to_string(), size: 20 },
                SizeEntry { path: "same.txt".to_string(), size: 1000 },
            ],
            blacklist: vec!["old.txt".to_string(), "same.txt".to_string(), "gone.txt".to_string()],
            warnings: vec![],
        },
        module_url: "https://a.example/m".to_string(),
    }
}

#[test]
fn plan_classifies_whitelist_entries() {
    let p = prepared();
    let options = SkunkUpdateOptions {
        use_beta: false,
        include_liveries: false,
        apply_blacklist: true,
        rollback_on_failure: true,
        parallel_downloads: None,
        channel: None,
        fresh_install: false,
    };
    let states = vec![
        LocalEntryState { exists: false, is_dir: false, crc32: None },
        LocalEntryState { exists: true, is_dir: false, crc32: Some(8) },
        LocalEntryState { exists: true, is_dir: false, crc32: Some(9) },
        LocalEntryState { exists: true, is_dir: false, crc32: None },
        LocalEntryState { exists: true, is_dir: false, crc32: None },
        LocalEntryState { exists: true, is_dir: true, crc32: None },
    ];
    assert!(!whitelist_entry_needs_crc(&p, &options, &p.manifest.whitelist[0], false, false));
    assert!(whitelist_entry_needs_crc(&p, &options, &p.manifest.whitelist[1], true, false));
    assert!(!whitelist_entry_needs_crc(&p, &options, &p.manifest.whitelist[5], true, true));
    let plan = build_plan_internal(&p, "aircraft", "B738", &options, &states, &[true, true, false]);
    assert_eq!(plan.add_files, vec!["new.txt".to_string()]);
    assert_eq!(plan.replace_files, vec!["changed.txt".to_string()]);
    assert_eq!(
        plan.skip_files,
        vec![
            "same.txt".to_string(),
            "liveries/a.png".to_string(),
            "once.txt".to_string(),
            "folder".to_string()
        ]
    );
    assert_eq!(plan.delete_files, vec!["old.txt".to_string()]);
    assert_eq!(plan.estimated_download_bytes, 120);
    assert!(plan.has_update);
    assert!(plan.remote_locked);
    assert_eq!(plan.provider, "manifest");
    assert_eq!(
        plan.warnings,
        vec![
            "Remote entry 'folder' points to a directory locally; skipping".to_string(),
            "Blacklist entry 'same.txt' is also in whitelist; skipped for safety".to_string(),
            "Remote repository is locked".to_string(),
        ]
    );
}

#[test]
fn cfg_version_is_replaced_or_appended() {
    assert_eq!(
        update_local_cfg_version_text("module|m\nVersion|1.0\nx|y", " 2.0 "),
        "module|m\nversion|2.0\nx|y"
    );
    assert_eq!(update_local_cfg_version_text("module|m\n", "3"), "module|m\nversion|3");
}

#[test]
fn target_locations_by_item_type() {
    let (base, folder) = target_location("plugin", "Foo\\Bar").unwrap();
    assert_eq!(base, vec!["Resources".to_string(), "plugins".to_string()]);
    assert_eq!(folder, "Foo/Bar");
    assert_eq!(target_location("scenery", "S").unwrap().0, vec!["Custom Scenery".to_string()]);
    assert_eq!(target_location("livery", "L").unwrap().0, vec!["Aircraft".to_string()]);
    assert_eq!(target_location("aircraft", " ").unwrap_err(), "Folder name cannot be empty");
    assert_eq!(
        target_location("aircraft", "a/../b").unwrap_err(),
        "Folder name contains invalid traversal segment"
    );
    assert_eq!(target_location("tool", "x").unwrap_err(), "Unsupported item type 'tool'");
}

#[test]
fn module_file_urls_join_segments() {
    assert_eq!(
        join_url("https://example.com/mods/b738/", "a\\b c.txt").unwrap(),
        "https://example.com/mods/b738/a/b%20c.txt"
    );
    assert_eq!(join_url("https://example.com", "./x.txt").unwrap(), "https://example.com/x.txt");
    assert_eq!(
        join_url("ftp://x/y", "a").unwrap_err(),
        "Only HTTP(S) module URLs are supported"
    );
    assert_eq!(join_url("https://example.com", "../a").unwrap_err(), "Path traversal is not allowed: ../a");
}

#[test]
fn downloads_are_checked_against_manifest() {
    let mut m = prepared().manifest;
    m.sizes = vec![SizeEntry { path: "a.txt".to_string(), size: 5 }];
    m.whitelist = vec![WhitelistEntry { path: "a.txt".to_string(), crc32: crc32fast::hash(b"hello") as i64 }];
    assert!(check_downloaded_file(&m, "a.txt", b"hello").is_ok());
    assert_eq!(
        check_downloaded_file(&m, "a.txt", b"hell").unwrap_err(),
        "Size mismatch for 'a.txt': expected 5, got 4"
    );
    m.sizes = vec![];
    m.whitelist = vec![WhitelistEntry { path: "a.txt".to_string(), crc32: 1 }];
    assert_eq!(
        check_downloaded_file(&m, "a.txt", b"hello").unwrap_err(),
        format!("CRC mismatch for 'a.txt': expected 1, got {}", crc32fast::hash(b"hello"))
    );
    m.whitelist = vec![WhitelistEntry { path: "a.txt".to_string(), crc32: -1 }];
    assert!(check_downloaded_file(&m, "a.txt", b"hello").is_ok());
    assert!(check_downloaded_file(&m, "other.txt", b"x").is_ok());
}

#[test]
fn install_steps_follow_plan() {
    let p = prepared();
    let options = SkunkUpdateOptions {
        use_beta: false,
        include_liveries: true,
        apply_blacklist: true,
        rollback_on_failure: true,
        parallel_downloads: Some(20),
        channel: None,
        fresh_install: false,
    };
    assert_eq!(skunk_parallel_downloads(&options), 8);
    let states = vec![
        LocalEntryState { exists: false, is_dir: false, crc32: None },
        LocalEntryState { exists: true, is_dir: false, crc32: Some(8) },
        LocalEntryState { exists: true, is_dir: false, crc32: Some(9) },
        LocalEntryState { exists: false, is_dir: false, crc32: None },
        LocalEntryState { exists: true, is_dir: false, crc32: None },
        LocalEntryState { exists: true, is_dir: true, crc32: None },
    ];
    let plan = build_plan_internal(&p, "aircraft", "B738", &options, &states, &[true, true, false]);
    assert!(matches!(skunk_install_start(&plan, "aircraft", "B738", &p.local.version), SkunkInstallStart::Locked(e) if e == "Remote repository is locked and cannot be updated currently"));
    assert_eq!(skunk_download_targets(&plan), vec!["new.txt", "liveries/a.png", "changed.txt"]);
    let steps = skunk_apply_steps(&plan);
    let shown: Vec<String> = steps
        .iter()
        .map(|s| match s {
            SkunkApplyStep::Write(p) => format!("w:{}", p),
            SkunkApplyStep::Delete(p) => format!("d:{}", p),
        })
        .collect();
    assert_eq!(shown, vec!["w:changed.txt", "w:new.txt", "w:liveries/a.png", "d:old.txt"]);
    let result = skunk_update_result(&plan, "aircraft", "B738", &p.local.version);
    assert_eq!(result.updated_files, 3);
    assert_eq!(result.deleted_files, 1);
    let mut unlocked = plan.clone();
    unlocked.remote_locked = false;
    assert!(matches!(skunk_install_start(&unlocked, "aircraft", "B738", &None), SkunkInstallStart::Proceed));
    unlocked.add_files.clear();
    unlocked.replace_files.clear();
    unlocked.delete_files.clear();
    match skunk_install_start(&unlocked, "aircraft", "B738", &Some("1.0".to_string())) {
        SkunkInstallStart::NothingToDo(r) => {
            assert_eq!(r.message, "No file changes required");
            assert_eq!(r.local_version.as_deref(), Some("1.0"));
            assert_eq!(r.remote_version.as_deref(), Some("1.1"));
        }
        _ => panic!("expected nothing to do"),
    }
    let default_parallel = SkunkUpdateOptions { parallel_downloads: None, ..options.clone() };
    assert_eq!(skunk_parallel_downloads(&default_parallel), 4);
    let zero = SkunkUpdateOptions { parallel_downloads: Some(0), ..options };
    assert_eq!(skunk_parallel_downloads(&zero), 1);
}

#[test]
fn normalizing_a_normalized_path_changes_nothing() {
    for raw in [" ./a\\b/./c ", "././/x//y/", "/plugins/ a .txt ", ".hidden/ x /y", "\\\\server\\share\\f.txt"] {
        let once = normalize_manifest_path(raw).unwrap();
        assert_eq!(normalize_manifest_path(&once).unwrap(), once);
    }
}
