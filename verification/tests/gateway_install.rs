use xfast_manager::flatten::{SceneryCategory, SceneryPackageInfo};
use xfast_manager::gateway_install::{
    conflicting_package_folder, conflicting_scanned_folder, decide_gateway_install_target,
    find_external_airport_conflict_message, gateway_install_failure, gateway_task_labels,
    GatewayTargetDecision, PreviousGatewayInstall, ScannedSceneryFolder,
};

fn pkg(folder: &str, category: SceneryCategory, airport: Option<&str>) -> SceneryPackageInfo {
    SceneryPackageInfo {
        folder_name: folder.to_string(),
        actual_path: None,
        category,
        has_apt_dat: true,
        airport_id: airport.map(|a| a.to_string()),
    }
}

#[test]
fn index_conflict_skips_default_and_managed() {
    let managed = vec!["KSEA_Gateway".to_string()];
    let packages = vec![
        pkg("Global Airports", SceneryCategory::DefaultAirport, Some("KSEA")),
        pkg("ksea_gateway", SceneryCategory::Other, Some("KSEA")),
        pkg("KPDX Pro", SceneryCategory::Other, Some("KPDX")),
        pkg("Seattle Pro", SceneryCategory::Other, Some("ksea")),
    ];
    assert_eq!(conflicting_package_folder(&packages, &managed, "KSEA"), Some("Seattle Pro".to_string()));
    assert_eq!(conflicting_package_folder(&packages, &managed, "EGLL"), None);
}

#[test]
fn scan_conflict_skips_global_airports_and_files() {
    let managed: Vec<String> = Vec::new();
    let entries = vec![
        ScannedSceneryFolder { folder_name: "My Global Airports Copy".to_string(), is_dir: true, info: Some(pkg("x", SceneryCategory::Other, Some("KSEA"))) },
        ScannedSceneryFolder { folder_name: "readme.txt".to_string(), is_dir: false, info: None },
        ScannedSceneryFolder { folder_name: "Broken".to_string(), is_dir: true, info: None },
        ScannedSceneryFolder { folder_name: "KSEA HD".to_string(), is_dir: true, info: Some(pkg("KSEA HD", SceneryCategory::Other, Some("KSEA"))) },
    ];
    assert_eq!(conflicting_scanned_folder(&entries, &managed, "ksea"), Some("KSEA HD".to_string()));
    let msg = find_external_airport_conflict_message("KSEA", None, Some("KSEA HD".to_string()));
    assert_eq!(msg, Some("Custom Scenery already contains a non-Gateway airport for KSEA: KSEA HD".to_string()));
    assert_eq!(find_external_airport_conflict_message("KSEA", None, None), None);
}

#[test]
fn install_target_decisions() {
    match decide_gateway_install_target(true, &None, "KSEA_Scenery", 5) {
        GatewayTargetDecision::Conflict(m) => assert_eq!(m, "Gateway target folder already exists: KSEA_Scenery"),
        other => panic!("unexpected {:?}", other),
    }
    let prev = Some(PreviousGatewayInstall { folder_name: "ksea_scenery".to_string(), scenery_id: 5 });
    assert!(matches!(decide_gateway_install_target(true, &prev, "KSEA_Scenery", 5), GatewayTargetDecision::AlreadyInstalled));
    match decide_gateway_install_target(true, &prev, "KSEA_Scenery", 6) {
        GatewayTargetDecision::Install { overwrite, remove_previous } => {
            assert!(overwrite);
            assert!(remove_previous.is_none());
        }
        other => panic!("unexpected {:?}", other),
    }
    match decide_gateway_install_target(false, &prev, "KSEA_New", 6) {
        GatewayTargetDecision::Install { overwrite, remove_previous } => {
            assert!(!overwrite);
            assert_eq!(remove_previous, Some("ksea_scenery".to_string()));
        }
        other => panic!("unexpected {:?}", other),
    }
}

#[test]
fn task_labels_and_failures() {
    assert_eq!(
        gateway_task_labels("KSEA", 1234),
        ("gateway-KSEA-1234".to_string(), "Gateway KSEA #1234".to_string())
    );
    assert_eq!(gateway_install_failure(0, &Some((true, None))), None);
    assert_eq!(gateway_install_failure(1, &None), Some("Gateway installation failed".to_string()));
    assert_eq!(gateway_install_failure(0, &Some((false, Some("disk full".to_string())))), Some("disk full".to_string()));
}
