use xfast_manager::zibo_backup::{
    check_zibo_backup, check_zibo_restore, is_zibo_config_file, FileCopyCheck, LiveriesBackupCheck,
};

fn copy(name: &str, original: u64, copy: Option<u64>) -> FileCopyCheck {
    FileCopyCheck { file_name: name.to_string(), original_size: original, copy_size: copy }
}

#[test]
fn config_files_match_prefs_pattern() {
    assert!(is_zibo_config_file("b738x_prefs.txt"));
    assert!(is_zibo_config_file("_prefs.txt"));
    assert!(!is_zibo_config_file("prefs.txt"));
    assert!(!is_zibo_config_file("b738x_PREFS.TXT"));
}

#[test]
fn backup_checks_liveries_then_settings() {
    let good = LiveriesBackupCheck { original_files: 3, original_bytes: 30, backup: Some((3, 30)) };
    assert_eq!(check_zibo_backup(Some(good), &vec![copy("a_prefs.txt", 5, Some(5))]), Ok(()));
    let short = LiveriesBackupCheck { original_files: 3, original_bytes: 30, backup: Some((2, 30)) };
    assert_eq!(
        check_zibo_backup(Some(short), &vec![]),
        Err("Zibo liveries backup is incomplete: expected 3 files, got 2".to_string())
    );
    let small = LiveriesBackupCheck { original_files: 3, original_bytes: 30, backup: Some((3, 29)) };
    assert_eq!(
        check_zibo_backup(Some(small), &vec![]),
        Err("Zibo liveries backup size mismatch: expected 30 bytes, got 29".to_string())
    );
    let gone = LiveriesBackupCheck { original_files: 3, original_bytes: 30, backup: None };
    assert_eq!(
        check_zibo_backup(Some(gone), &vec![copy("a_prefs.txt", 5, None)]),
        Err("Zibo liveries backup folder does not exist".to_string())
    );
    assert_eq!(
        check_zibo_backup(None, &vec![copy("a_prefs.txt", 5, Some(5)), copy("b_prefs.txt", 7, Some(6))]),
        Err("Backup size mismatch for 'b_prefs.txt': expected 7 bytes, got 6".to_string())
    );
    assert_eq!(
        check_zibo_backup(None, &vec![copy("c_prefs.txt", 1, None)]),
        Err("Backup of 'c_prefs.txt' does not exist".to_string())
    );
}

#[test]
fn restore_checks_settings_then_liveries() {
    assert_eq!(check_zibo_restore(&vec![copy("a_prefs.txt", 5, Some(5))], true, true), Ok(()));
    assert_eq!(
        check_zibo_restore(&vec![copy("a_prefs.txt", 5, Some(4))], true, false),
        Err("Restored config file 'a_prefs.txt' has the wrong size: expected 5 bytes, got 4".to_string())
    );
    assert_eq!(
        check_zibo_restore(&vec![], true, false),
        Err("Restored Zibo liveries folder does not exist".to_string())
    );
    assert_eq!(
        check_zibo_restore(&vec![copy("x_prefs.txt", 5, None)], false, false),
        Err("Restored config file 'x_prefs.txt' does not exist".to_string())
    );
}
