use xfast_manager::zibo::{
    drive_source_order_for_seed, LocalVersionState, PlannedZiboUpdate, VersionTriple,
    ZiboInstallMode, ZiboManualDownloadReason, ZiboRelease,
};
use xfast_manager::zibo_plan::{
    apply_drive_probe, build_plan_context, decide_zibo_execution, plan_remote_module_url,
    zibo_install_start_message, zibo_manual_fallback_url, zibo_plan_start, zibo_update_plan,
    zibo_update_result, ResolvedDriveFile, ZiboExecution, ZiboPlanContext,
};

const FALLBACK: &str = "https://forums.x-plane.org/forums/topic/185685-alternative-download-links-zibo-install-guide-training-checklist/";

fn release(major: u32, minor: u32, patch: u32, title: &str) -> ZiboRelease {
    ZiboRelease { version: VersionTriple::new(major, minor, patch), title: title.to_string() }
}

fn catalog() -> Vec<ZiboRelease> {
    vec![
        release(4, 5, 0, "B737-800X_XP12_4_05_full.zip"),
        release(4, 5, 31, "B738X_XP12_4_05_31.zip"),
        release(4, 4, 0, "B737-800X_XP12_4_04_full.zip"),
    ]
}

fn drive_file(bytes: u64, link: Option<&str>) -> ResolvedDriveFile {
    ResolvedDriveFile {
        source: drive_source_order_for_seed(0)[0],
        file_id: "id".to_string(),
        file_name: "B738X_XP12_4_05_31.zip".to_string(),
        total_bytes: bytes,
        web_view_link: link.map(|l| l.to_string()),
    }
}

fn planned_context() -> ZiboPlanContext {
    let (ctx, _) = zibo_plan_start(
        &LocalVersionState::Parsed(VersionTriple::new(4, 5, 2)),
        &catalog(),
        "https://drive.example/folder",
    )
    .unwrap();
    ctx
}

#[test]
fn plan_start_fails_on_empty_catalog() {
    let err = zibo_plan_start(&LocalVersionState::Missing, &[], "u").unwrap_err();
    assert_eq!(err, "No usable Zibo release was found in the RSS feed");
}

#[test]
fn plan_start_patches_within_branch() {
    let (ctx, probe) = zibo_plan_start(
        &LocalVersionState::Parsed(VersionTriple::new(4, 5, 2)),
        &catalog(),
        "https://drive.example/folder",
    )
    .unwrap();
    assert!(ctx.has_update);
    assert_eq!(ctx.install_mode, Some(ZiboInstallMode::Patch));
    assert_eq!(ctx.latest_release.version_string(), "4.05.31");
    assert!(ctx.warnings.is_empty());
    assert_eq!(probe.len(), 1);
    assert_eq!(probe[0].title, "B738X_XP12_4_05_31.zip");
    assert_eq!(ctx.preferred_source_url, "https://drive.example/folder");
}

#[test]
fn plan_start_without_local_version_installs_clean_with_warning() {
    let (ctx, probe) = zibo_plan_start(&LocalVersionState::Missing, &catalog(), "u").unwrap();
    assert_eq!(ctx.install_mode, Some(ZiboInstallMode::MajorClean));
    assert_eq!(probe.len(), 2);
    assert_eq!(probe[0].title, "B737-800X_XP12_4_05_full.zip");
    assert_eq!(probe[1].title, "B738X_XP12_4_05_31.zip");
    assert_eq!(
        ctx.warnings,
        vec!["Local Zibo version.txt was not found; XFast Manager will use a clean install flow."
            .to_string()]
    );
}

#[test]
fn plan_start_up_to_date_has_no_update() {
    let (ctx, probe) = zibo_plan_start(
        &LocalVersionState::Parsed(VersionTriple::new(4, 5, 31)),
        &catalog(),
        "u",
    )
    .unwrap();
    assert!(!ctx.has_update);
    assert!(probe.is_empty());
    let result = zibo_update_result("aircraft", "B737-800X", &ctx, None);
    assert_eq!(result.message, "Already up to date");
    assert_eq!(result.local_version.as_deref(), Some("4.05.31"));
    assert!(matches!(
        decide_zibo_execution(&ctx, false, false, false),
        Ok(ZiboExecution::AlreadyUpToDate)
    ));
}

#[test]
fn invalid_local_version_warning_carries_reason() {
    let planned = PlannedZiboUpdate {
        install_mode: ZiboInstallMode::MajorClean,
        primary_release: release(4, 5, 0, "full"),
        follow_up_patch: None,
    };
    let ctx = build_plan_context(
        &LocalVersionState::Invalid("bad text".to_string()),
        release(4, 5, 0, "full"),
        Some(&planned),
        "p".to_string(),
    );
    assert_eq!(
        ctx.warnings,
        vec!["Local Zibo version.txt could not be parsed; XFast Manager will use a clean install flow. bad text".to_string()]
    );
}

#[test]
fn probe_success_sums_archive_sizes() {
    let ctx = apply_drive_probe(
        planned_context(),
        Ok(vec![drive_file(100, Some("https://drive.example/view")), drive_file(23, None)]),
    )
    .unwrap();
    assert_eq!(ctx.estimated_download_bytes, 123);
    assert_eq!(plan_remote_module_url(&ctx), "https://drive.example/view");
    let plan = zibo_update_plan("aircraft", "B737-800X", &ctx);
    assert_eq!(plan.provider, "zibo");
    assert_eq!(plan.zibo_install_mode.as_deref(), Some("patch"));
    assert_eq!(plan.remote_version.as_deref(), Some("4.05.31"));
    assert_eq!(plan.local_version.as_deref(), Some("4.05.02"));
    assert_eq!(plan.estimated_download_bytes, 123);
}

#[test]
fn probe_without_link_points_at_folder() {
    let ctx = apply_drive_probe(planned_context(), Ok(vec![drive_file(5, None)])).unwrap();
    assert_eq!(
        plan_remote_module_url(&ctx),
        "https://drive.google.com/drive/folders/1qo88h_CCQRRrAMhG3EabHSwa4Lzw-WHL"
    );
}

#[test]
fn probe_missing_archive_turns_into_release_page_download() {
    let ctx = apply_drive_probe(
        planned_context(),
        Err("Zibo archive 'x.zip' was not found in Google Drive source drive-source-a".to_string()),
    )
    .unwrap();
    assert_eq!(ctx.manual_download_reason, Some(ZiboManualDownloadReason::ReleasePage));
    assert_eq!(ctx.manual_download_url.as_deref(), Some(FALLBACK));
    assert_eq!(plan_remote_module_url(&ctx), FALLBACK);
    assert_eq!(ctx.warnings.len(), 1);
    let err = match decide_zibo_execution(&ctx, false, false, false) {
        Err(e) => e,
        Ok(_) => panic!("expected a manual download error"),
    };
    assert_eq!(
        err,
        format!("The Zibo Google Drive files may not be updated yet. Please retry later or visit the release page for other download options: {}", FALLBACK)
    );
    let plan = zibo_update_plan("aircraft", "B737-800X", &ctx);
    assert_eq!(plan.manual_download_reason.as_deref(), Some("release-page"));
}

#[test]
fn probe_quota_turns_into_drive_limit_download() {
    let ctx = apply_drive_probe(
        planned_context(),
        Err("probe returned 403 reason=downloadQuotaExceeded".to_string()),
    )
    .unwrap();
    assert_eq!(ctx.manual_download_reason, Some(ZiboManualDownloadReason::DriveLimit));
    assert_eq!(
        ctx.warnings,
        vec!["Google Drive reported that the download quota for the required Zibo package has been exceeded.".to_string()]
    );
    let err = match decide_zibo_execution(&ctx, true, false, false) {
        Err(e) => e,
        Ok(_) => panic!("expected a manual download error"),
    };
    assert!(err.starts_with("Google Drive has reached its 24-hour download limit"));
    assert!(err.ends_with(FALLBACK));
}

#[test]
fn probe_request_failure_fails_the_plan() {
    let err = apply_drive_probe(planned_context(), Err("Failed to search folder".to_string()))
        .unwrap_err();
    assert_eq!(err, "Failed to probe Zibo Google Drive availability: Failed to search folder");
}

#[test]
fn probe_is_ignored_without_update() {
    let (ctx, _) = zibo_plan_start(
        &LocalVersionState::Parsed(VersionTriple::new(4, 5, 31)),
        &catalog(),
        "u",
    )
    .unwrap();
    let same = apply_drive_probe(ctx, Err("anything".to_string())).unwrap();
    assert!(!same.has_update);
    assert_eq!(plan_remote_module_url(&same), "u");
}

#[test]
fn clean_install_keeps_user_files_unless_fresh() {
    let (ctx, _) = zibo_plan_start(&LocalVersionState::Missing, &catalog(), "u").unwrap();
    match decide_zibo_execution(&ctx, false, false, false) {
        Ok(ZiboExecution::Install { planned, preserve_liveries, preserve_config_files }) => {
            assert_eq!(planned.install_mode, ZiboInstallMode::MajorClean);
            assert!(preserve_liveries && preserve_config_files);
            assert_eq!(planned.follow_up_patch.unwrap().title, "B738X_XP12_4_05_31.zip");
        }
        _ => panic!("expected an install"),
    }
    match decide_zibo_execution(&ctx, true, false, true) {
        Ok(ZiboExecution::Install { preserve_liveries, preserve_config_files, .. }) => {
            assert!(!preserve_liveries);
            assert!(preserve_config_files);
        }
        _ => panic!("expected an install"),
    }
}

#[test]
fn installed_result_names_version_and_suffix() {
    let ctx = planned_context();
    let r = zibo_update_result("aircraft", "B737-800X", &ctx, Some((42, Some("(patch)".to_string()))));
    assert_eq!(r.message, "Updated Zibo to 4.05.31 (patch)");
    assert_eq!(r.updated_files, 42);
    let r = zibo_update_result("aircraft", "B737-800X", &ctx, Some((1, None)));
    assert_eq!(r.message, "Updated Zibo to 4.05.31");
    assert_eq!(zibo_install_start_message(ZiboInstallMode::Patch), "Preparing Zibo patch update");
    assert_eq!(zibo_manual_fallback_url(), FALLBACK);
}
