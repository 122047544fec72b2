use xfast_manager::manage::lua_toggled_name;
use xfast_manager::manage::{
    aircraft_files_choice, classify_version_source, detect_plugin_platform, file_extension,
    file_stem, has_extension, has_version_pattern, is_listed_livery_folder, is_livery_icon,
    lua_delete_check, lua_script_state, lua_toggle_target, management_base_folders,
    set_cfg_disabled_text, toggle_new_state, try_parse_digit_version, validate_folder_name,
    validate_script_file_name, version_info_from_texts,
};

fn strings(v: &[&str]) -> Vec<String> {
    v.iter().map(|s| s.to_string()).collect()
}

#[test]
fn folder_names_must_be_plain() {
    assert!(validate_folder_name("B738").is_ok());
    assert_eq!(validate_folder_name("a/b").unwrap_err(), "Invalid folder name");
    assert_eq!(validate_folder_name("").unwrap_err(), "Invalid folder name");
    assert_eq!(validate_folder_name("a..b").unwrap_err(), "Invalid folder name");
    assert_eq!(validate_script_file_name("x\\y.lua").unwrap_err(), "Invalid file name");
    assert_eq!(management_base_folders("plugin").unwrap(), vec!["Resources", "plugins"]);
    assert_eq!(management_base_folders("navdata").unwrap(), vec!["Custom Data"]);
    assert_eq!(management_base_folders("scenery").unwrap_err(), "Unknown item type: scenery");
}

#[test]
fn version_patterns_and_digit_versions() {
    assert!(has_version_pattern("v1.2"));
    assert!(has_version_pattern("10.04"));
    assert!(!has_version_pattern("1."));
    assert!(!has_version_pattern(".5"));
    assert!(!has_version_pattern("a1.b"));
    assert_eq!(try_parse_digit_version("020310").as_deref(), Some("2.3.10"));
    assert_eq!(try_parse_digit_version("12345").as_deref(), Some("12.34.5"));
    assert_eq!(try_parse_digit_version("v00.01").as_deref(), Some("0.1"));
    assert_eq!(try_parse_digit_version("abc123"), None);
}

#[test]
fn version_info_prefers_cfg_then_files() {
    let (v, u, d) = version_info_from_texts(Some("module|http://m\nVersion| 2.1 \ndisabled|TRUE"), &vec![]);
    assert_eq!(v.as_deref(), Some("2.1"));
    assert_eq!(u.as_deref(), Some("http://m"));
    assert_eq!(d, Some(true));
    let (v, u, d) = version_info_from_texts(
        Some("module|http://m\n"),
        &strings(&["Build info\nVersion 1.2.3 (1.2.3) r4.5", "other 7.8 1.2.3"]),
    );
    assert_eq!(v.as_deref(), Some("1.2.3/(1.2.3)/r4.5/7.8"));
    assert_eq!(u.as_deref(), Some("http://m"));
    assert_eq!(d, None);
    assert_eq!(version_info_from_texts(None, &strings(&["\n  020310\n"])).0.as_deref(), Some("2.3.10"));
    assert_eq!(version_info_from_texts(None, &strings(&["hello"])).0.as_deref(), Some("hello"));
    assert_eq!(version_info_from_texts(None, &vec![]), (None, None, None));
    assert_eq!(classify_version_source("Skunkcrafts_Updater.cfg"), 0);
    assert_eq!(classify_version_source("MyVersion.txt"), 1);
    assert_eq!(classify_version_source("767.ini"), 1);
    assert_eq!(classify_version_source("readme.txt"), 2);
}

#[test]
fn aircraft_and_plugin_files() {
    assert_eq!(
        aircraft_files_choice(&strings(&["a.txt", "B738.XFMA", "b738.acf"])),
        Some(("b738.acf".to_string(), true))
    );
    assert_eq!(aircraft_files_choice(&strings(&["x.xfma"])), Some(("x.xfma".to_string(), false)));
    assert_eq!(aircraft_files_choice(&strings(&["a.txt"])), None);
    assert_eq!(detect_plugin_platform(&strings(&["64/win.xpl", "mac.xpl"]), &vec![]), "multi");
    assert_eq!(detect_plugin_platform(&vec![], &strings(&["Lin_x64"])), "lin");
    assert_eq!(detect_plugin_platform(&strings(&["64/win.xpl"]), &strings(&["win"])), "win");
    assert_eq!(detect_plugin_platform(&vec![], &vec![]), "unknown");
}

#[test]
fn extensions_and_toggles() {
    assert_eq!(file_extension("a.tar.gz").as_deref(), Some("gz"));
    assert_eq!(file_extension(".bashrc"), None);
    assert_eq!(file_extension("noext"), None);
    assert_eq!(file_extension("a.").as_deref(), Some(""));
    assert!(has_extension("B738.ACF", "acf"));
    assert!(!has_extension("B738.acf.bak", "acf"));
    assert_eq!(file_stem("script.lua"), "script");
    assert_eq!(file_stem(".hidden"), ".hidden");
    assert_eq!(file_stem("a.b.c"), "a.b");
    assert_eq!(toggle_new_state("aircraft", 2, 0), Ok(false));
    assert_eq!(toggle_new_state("plugin", 0, 3), Ok(true));
    assert_eq!(
        toggle_new_state("aircraft", 0, 0).unwrap_err(),
        "No .acf or .xfma files found in aircraft folder"
    );
    assert_eq!(toggle_new_state("plugin", 0, 0).unwrap_err(), "No .xpl or .xfmp files found in plugin folder");
    assert_eq!(toggle_new_state("navdata", 1, 0).unwrap_err(), "Unknown item type: navdata");
}

#[test]
fn lua_scripts_toggle_by_extension() {
    assert_eq!(lua_script_state("a.LUA"), Some(true));
    assert_eq!(lua_script_state("b.xfml"), Some(false));
    assert_eq!(lua_script_state("c.txt"), None);
    assert_eq!(lua_toggle_target("x.lua"), Ok(false));
    assert_eq!(lua_toggle_target("x.XFML"), Ok(true));
    assert_eq!(lua_toggle_target("x.txt").unwrap_err(), "Unsupported file extension: txt");
    assert_eq!(lua_toggle_target("noext").unwrap_err(), "Unsupported file extension: ");
    assert!(lua_delete_check("x.xfml").is_ok());
    assert_eq!(lua_delete_check("x.txt").unwrap_err(), "Not a script file: x.txt");
}

#[test]
fn cfg_disabled_flag_and_liveries() {
    assert_eq!(set_cfg_disabled_text("module|m\n Disabled|false\nx", true), "module|m\ndisabled|true\nx");
    assert_eq!(set_cfg_disabled_text("module|m", false), "module|m\ndisabled|false");
    assert!(!is_listed_livery_folder(".git"));
    assert!(is_listed_livery_folder("KLM"));
    assert!(is_livery_icon("KLM_Icon11.PNG"));
    assert!(!is_livery_icon("KLM_icon.png"));
}

#[test]
fn toggling_a_script_twice_restores_its_name() {
    let (on, off_name) = lua_toggled_name("my.script.lua").unwrap();
    assert!(!on);
    assert_eq!(off_name, "my.script.xfml");
    let (on_again, back) = lua_toggled_name(&off_name).unwrap();
    assert!(on_again);
    assert_eq!(back, "my.script.lua");
    assert_eq!(lua_toggled_name("X.XFML").unwrap(), (true, "X.lua".to_string()));
    assert_eq!(lua_toggled_name("x.txt").unwrap_err(), "Unsupported file extension: txt");
}
