use xfast_manager::addon::{
    assemble_xupdater_context, check_xupdater_products, XAction, XActionKind,
};
use xfast_manager::csl::{
    files_to_download, record_fetched_descriptions, split_by_description_cache, FileEntry,
    LocalFileCheck, PackageData,
};
use xfast_manager::link_sync::{
    file_recorded, hardlink_package_start, plan_link_sync, HardlinkFileAction, LinkSyncMode,
    PackageSlot, PackageSyncStart, SyncTarget,
};
use xfast_manager::skunk::{parse_cfg_lines, read_local_config};
use xfast_manager::xupdater::XUpdaterProfile;

fn strings(v: &[&str]) -> Vec<String> {
    v.iter().map(|s| s.to_string()).collect()
}

#[test]
fn local_config_refuses_bad_modules() {
    assert_eq!(
        read_local_config("cfg", "module|ftp://a.example/m\n", None).unwrap_err(),
        "Only HTTP(S) module URLs are supported"
    );
    assert_eq!(
        read_local_config("cfg", "module|https://a.example/m\n", Some("module|file:///tmp/x\n")).unwrap_err(),
        "Only HTTP(S) module URLs are supported"
    );
    assert_eq!(
        read_local_config("cfg", "module|not a url\n", None).unwrap_err(),
        "Invalid module URL 'not a url'"
    );
    let c = read_local_config("cfg", "module|https://a.example/m\n", Some("module|   \n")).unwrap();
    assert_eq!(c.beta_module, None);
}

#[test]
fn install_downloads_only_outdated_files() {
    let file = |p: &str, n: u64, h: Option<&str>| FileEntry { path: p.to_string(), size_bytes: n, md5_hash: h.map(|x| x.to_string()) };
    let check = |e: bool, n: u64, h: Option<&str>| LocalFileCheck { exists: e, len: n, md5: h.map(|x| x.to_string()) };
    let pkg = PackageData {
        name: "A19N".to_string(),
        header_size: 0,
        header_date: String::new(),
        header_time: String::new(),
        files: vec![
            file("A19N/a.obj", 5, Some("aa")),
            file("A19N/b.obj", 6, Some("bb")),
            file("A19N/c.obj", 7, None),
            file("A19N/d.obj", 8, Some("dd")),
        ],
    };
    let checks = [check(true, 5, Some("aa")), check(true, 6, Some("xx")), check(false, 0, None), check(true, 8, None)];
    let got: Vec<String> = files_to_download(&pkg, &checks).into_iter().map(|f| f.path).collect();
    assert_eq!(got, strings(&["A19N/b.obj", "A19N/c.obj", "A19N/d.obj"]));
}

#[test]
fn description_cache_splits_and_records() {
    let mut cache = parse_cfg_lines("");
    let mut result = Vec::new();
    record_fetched_descriptions(&mut cache, &mut result, "srv", &vec![("A".to_string(), "Airbus".to_string())]);
    assert_eq!(result, vec![("A".to_string(), "Airbus".to_string())]);
    assert_eq!(cache.get("srv::A"), Some(&"Airbus".to_string()));
    let (known, unknown) = split_by_description_cache(&cache, "srv", &strings(&["A", "B"]));
    assert_eq!(known, vec![("A".to_string(), "Airbus".to_string())]);
    assert_eq!(unknown, strings(&["B"]));
    let (known, unknown) = split_by_description_cache(&cache, "other", &strings(&["A"]));
    assert!(known.is_empty());
    assert_eq!(unknown, strings(&["A"]));
}

#[test]
fn link_sync_plan_follows_the_request() {
    let found = vec![
        SyncTarget { base: "/xp/a".to_string(), hard_links: true },
        SyncTarget { base: "/xp/b".to_string(), hard_links: false },
    ];
    let names = strings(&["B", "A", "B"]);
    let chosen = strings(&[" /xp/b ", ""]);
    let cleanup = strings(&["/xp/canon", "/old"]);
    let plan = plan_link_sync("/xp/canon", &found, Some(&names), Some(&chosen), Some(&cleanup), &strings(&["Z"]));
    assert_eq!(plan.mode, LinkSyncMode::Reconcile);
    assert_eq!(plan.packages, strings(&["A", "B"]));
    assert_eq!(plan.active_targets.len(), 1);
    assert_eq!(plan.active_targets[0].base, "/xp/b");
    assert_eq!(plan.cleanup_targets, strings(&["/old"]));
    assert_eq!(plan.cleanup_packages, Some(strings(&["A", "B"])));
    let fill = plan_link_sync("/xp/canon", &found, None, None, Some(&cleanup), &strings(&["Z"]));
    assert_eq!(fill.mode, LinkSyncMode::MissingOnly);
    assert_eq!(fill.packages, strings(&["Z"]));
    assert_eq!(fill.active_targets.len(), 2);
    assert_eq!(fill.cleanup_packages, None);
    let none = plan_link_sync("/xp/canon", &found, None, None, None, &strings(&["Z"]));
    assert_eq!(none.cleanup_packages, Some(Vec::new()));
}

#[test]
fn package_sync_start_and_recording() {
    assert_eq!(hardlink_package_start(LinkSyncMode::MissingOnly, PackageSlot::Link(true), "/t/A"), PackageSyncStart::Skip);
    assert_eq!(hardlink_package_start(LinkSyncMode::Reconcile, PackageSlot::Link(true), "/t/A"), PackageSyncStart::ReplaceLink);
    assert_eq!(hardlink_package_start(LinkSyncMode::MissingOnly, PackageSlot::Missing, "/t/A"), PackageSyncStart::Sync);
    assert_eq!(
        hardlink_package_start(LinkSyncMode::Reconcile, PackageSlot::Other, "/t/A"),
        PackageSyncStart::Refuse("Skipped /t/A: file exists and cannot be replaced with managed hard links".to_string())
    );
    assert!(file_recorded(HardlinkFileAction::KeepExisting, false, false));
    assert!(!file_recorded(HardlinkFileAction::ReplaceWithLink, false, true));
    assert!(file_recorded(HardlinkFileAction::Link, true, true));
    assert!(!file_recorded(HardlinkFileAction::PreserveUserFile, true, true));
}

#[test]
fn xupdater_context_is_assembled_from_fetched_values() {
    assert_eq!(check_xupdater_products(0, 0, "/t").unwrap_err(), "x-updater returned no products for this account");
    assert_eq!(check_xupdater_products(2, 0, "/t").unwrap_err(), "x-updater did not return a product matching '/t'");
    assert!(check_xupdater_products(2, 1, "/t").is_ok());
    let profile = XUpdaterProfile {
        host: "https://h".to_string(),
        login: None,
        license_key: None,
        package_version: None,
        version_label: Some(" 1.2 ".to_string()),
        ignore_list: Vec::new(),
    };
    let action = |p: &str, kind: XActionKind| XAction { rel_path: p.to_string(), kind, download: None, estimated_bytes: 0 };
    let ctx = assemble_xupdater_context(
        "https://h".to_string(),
        &profile,
        &[],
        None,
        &strings(&["r1", "r2"]),
        vec![action("b.txt", XActionKind::Delete), action("a.txt", XActionKind::Delete)],
        strings(&["w"]),
    );
    assert_eq!(ctx.remote_version.as_deref(), Some("r1, r2"));
    assert_eq!(ctx.actions.len(), 2);
    assert_eq!(ctx.actions[0].rel_path, "a.txt");
    assert_eq!(ctx.warnings, strings(&["w"]));
    assert!(ctx.local_version.is_some());
    let empty = assemble_xupdater_context("h".to_string(), &profile, &[], None, &Vec::new(), Vec::new(), Vec::new());
    assert_eq!(empty.remote_version, None);
}
