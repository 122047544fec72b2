use xfast_manager::csl::{estimate_missing_only_hardlink_units, TargetFileState};
use xfast_manager::link_sync::{
    hardlink_file_action, managed_files_to_remove, next_manifest_files, stale_managed_files,
    HardlinkFileAction, LinkSyncMode, TargetInspection,
};

fn strings(v: &[&str]) -> Vec<String> {
    v.iter().map(|s| s.to_string()).collect()
}

#[test]
fn user_files_are_preserved() {
    assert_eq!(hardlink_file_action(TargetInspection::Differs, false), HardlinkFileAction::PreserveUserFile);
    assert_eq!(hardlink_file_action(TargetInspection::CompareFailed, false), HardlinkFileAction::Skip);
    assert_eq!(hardlink_file_action(TargetInspection::Differs, true), HardlinkFileAction::ReplaceWithLink);
    assert_eq!(hardlink_file_action(TargetInspection::Missing, false), HardlinkFileAction::Link);
    assert_eq!(hardlink_file_action(TargetInspection::Matches, true), HardlinkFileAction::KeepExisting);
    assert_eq!(hardlink_file_action(TargetInspection::InspectFailed, true), HardlinkFileAction::Skip);
}

#[test]
fn reconcile_removes_stale_managed_files() {
    let previous = strings(&["a.obj", "b.obj", "c.obj"]);
    let current = strings(&["b.obj"]);
    assert_eq!(stale_managed_files(LinkSyncMode::Reconcile, &previous, &current), strings(&["a.obj", "c.obj"]));
    assert!(stale_managed_files(LinkSyncMode::MissingOnly, &previous, &current).is_empty());
}

#[test]
fn manifest_keeps_previous_files_when_filling() {
    let previous = strings(&["z.obj", "a.obj"]);
    let placed = strings(&["m.obj", "a.obj"]);
    assert_eq!(
        next_manifest_files(LinkSyncMode::MissingOnly, &previous, &placed),
        strings(&["a.obj", "m.obj", "z.obj"])
    );
    assert_eq!(next_manifest_files(LinkSyncMode::Reconcile, &previous, &placed), strings(&["a.obj", "m.obj"]));
}

#[test]
fn cleanup_removes_exactly_the_recorded_files() {
    let current_files = strings(&["xsb_aircraft.txt", "objects/model.obj"]);
    // A reconciling sync into an empty target links both files and records them.
    for _ in &current_files {
        assert_eq!(hardlink_file_action(TargetInspection::Missing, false), HardlinkFileAction::Link);
    }
    let manifest = next_manifest_files(LinkSyncMode::Reconcile, &Vec::new(), &current_files);
    assert_eq!(manifest, strings(&["objects/model.obj", "xsb_aircraft.txt"]));
    // The cleanup removes every recorded file, and only those.
    let removed = managed_files_to_remove(Some(&manifest));
    assert_eq!(removed, strings(&["objects/model.obj", "xsb_aircraft.txt"]));
    assert!(managed_files_to_remove(None).is_empty());
}

#[test]
fn missing_only_sync_plans_nothing_for_healthy_managed_files() {
    let current_files = strings(&["xsb_aircraft.txt", "objects/model.obj"]);
    let manifest = next_manifest_files(LinkSyncMode::Reconcile, &Vec::new(), &current_files);
    let healthy = [TargetFileState::Matches, TargetFileState::Matches];
    let planned_units = estimate_missing_only_hardlink_units(None, &current_files, &manifest, &healthy);
    assert_eq!(planned_units, 0);
    // Filling again keeps each healthy file and removes nothing.
    assert_eq!(hardlink_file_action(TargetInspection::Matches, true), HardlinkFileAction::KeepExisting);
    assert!(stale_managed_files(LinkSyncMode::MissingOnly, &manifest, &current_files).is_empty());
}

#[test]
fn cleanup_ignores_duplicate_records() {
    let removed = managed_files_to_remove(Some(&strings(&["b.obj", "a.obj", "b.obj"])));
    assert_eq!(removed, strings(&["a.obj", "b.obj"]));
}
