use xfast_manager::csl::{
    collect_cleanup_package_names, compare_altitude_files, estimate_missing_only_directory_link_units,
    estimate_missing_only_hardlink_units, estimate_target_package_units, CleanupEntry,
    CleanupTargetListing, FileEntry, LocalFileCheck, TargetFileState,
};
use xfast_manager::xupdater_lock::{enforce_obfuscated_xupdater_lock, obfuscated_xupdater_block_error};
use xfast_manager::zibo::is_zibo_target_listing;

fn entry(path: &str, size: u64, md5: Option<&str>) -> FileEntry {
    FileEntry { path: path.to_string(), size_bytes: size, md5_hash: md5.map(|m| m.to_string()) }
}

fn check(exists: bool, len: u64, md5: Option<&str>) -> LocalFileCheck {
    LocalFileCheck { exists, len, md5: md5.map(|m| m.to_string()) }
}

fn strings(v: &[&str]) -> Vec<String> {
    v.iter().map(|s| s.to_string()).collect()
}

#[test]
fn altitude_compare_skips_metadata() {
    let files = vec![
        entry("ALTITUDE/x-csl-info.info", 10, None),
        entry("ALTITUDE/a.obj", 100, Some("aa")),
        entry("ALTITUDE/b.obj", 200, None),
        entry("ALTITUDE/list.idx", 5, None),
    ];
    let up = compare_altitude_files(
        &files,
        &[check(false, 0, None), check(true, 100, Some("aa")), check(true, 200, None), check(false, 0, None)],
    );
    assert_eq!(up, ("up_to_date".to_string(), 0, 0));
    let partial = compare_altitude_files(
        &files,
        &[check(true, 10, None), check(true, 100, Some("bb")), check(true, 200, None), check(true, 5, None)],
    );
    assert_eq!(partial, ("needs_update".to_string(), 1, 100));
    let none = compare_altitude_files(
        &files,
        &[check(true, 10, None), check(true, 100, None), check(false, 0, None), check(true, 5, None)],
    );
    assert_eq!(none, ("not_installed".to_string(), 2, 300));
}

#[test]
fn hardlink_units_count_missing_and_stale_managed_files() {
    let current = strings(&["a", "b", "c", "d", "e"]);
    let previous = strings(&["b", "c"]);
    let states = [
        TargetFileState::Missing,
        TargetFileState::Differs,
        TargetFileState::Directory,
        TargetFileState::Unreadable,
        TargetFileState::Matches,
    ];
    assert_eq!(estimate_missing_only_hardlink_units(None, &current, &previous, &states), 3);
    assert_eq!(estimate_missing_only_hardlink_units(Some(true), &current, &previous, &states), 0);
    assert_eq!(estimate_missing_only_hardlink_units(Some(false), &current, &previous, &states), 5);
    assert_eq!(estimate_missing_only_hardlink_units(Some(false), &Vec::new(), &previous, &[]), 1);
}

#[test]
fn directory_link_and_target_units() {
    assert_eq!(estimate_missing_only_directory_link_units(Some(true), true, true, None), 0);
    assert_eq!(estimate_missing_only_directory_link_units(Some(false), true, true, None), 1);
    assert_eq!(estimate_missing_only_directory_link_units(None, false, false, None), 1);
    assert_eq!(estimate_missing_only_directory_link_units(None, true, true, Some(true)), 1);
    assert_eq!(estimate_missing_only_directory_link_units(None, true, true, None), 0);
    assert_eq!(estimate_target_package_units(Some(7), Some(3), false, 0, true), 7);
    assert_eq!(estimate_target_package_units(Some(0), Some(3), false, 0, true), 3);
    assert_eq!(estimate_target_package_units(None, Some(0), true, 0, true), 1);
    assert_eq!(estimate_target_package_units(None, None, false, 4, true), 4);
    assert_eq!(estimate_target_package_units(None, None, false, 0, true), 1);
    assert_eq!(estimate_target_package_units(None, None, false, 0, false), 0);
}

#[test]
fn cleanup_names_are_sorted_and_unique() {
    let targets = vec![
        CleanupTargetListing {
            manifest_packages: strings(&["Zulu", "Alpha"]),
            entries: vec![
                CleanupEntry { name: "Bravo".to_string(), link_or_empty_dir: true },
                CleanupEntry { name: ".xfast-csl-sync".to_string(), link_or_empty_dir: true },
                CleanupEntry { name: "Real".to_string(), link_or_empty_dir: false },
            ],
        },
        CleanupTargetListing { manifest_packages: strings(&["Alpha"]), entries: vec![] },
    ];
    let names = collect_cleanup_package_names(&strings(&["Mike", "Alpha"]), &targets);
    assert_eq!(names, strings(&["Alpha", "Bravo", "Mike", "Zulu"]));
}

#[test]
fn zibo_listing_needs_a_zibo_file_outside_default_folder() {
    let files = strings(&["readme.txt", " B738.acf "]);
    assert!(is_zibo_target_listing("B737-800X", &files));
    assert!(!is_zibo_target_listing("Boeing 737-800", &files));
    assert!(!is_zibo_target_listing("B737-800X", &strings(&["a.acf"])));
}

#[test]
fn xupdater_lock_digest_and_decision() {
    assert_eq!(
        obfuscated_xupdater_block_error("aircraft", "A320", "/x/Aircraft/A320"),
        "pipeline digest mismatch [09F46DC6]"
    );
    assert_eq!(obfuscated_xupdater_block_error("", "", ""), "pipeline digest mismatch [DF209C2A]");
    assert!(enforce_obfuscated_xupdater_lock("aircraft", "A320", "/x", true, true).is_ok());
    assert!(enforce_obfuscated_xupdater_lock("aircraft", "A320", "/x", false, false).is_ok());
    assert_eq!(
        enforce_obfuscated_xupdater_lock("aircraft", "A320", "/x/Aircraft/A320", false, true).unwrap_err(),
        "pipeline digest mismatch [09F46DC6]"
    );
}
