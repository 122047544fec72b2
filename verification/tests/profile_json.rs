use xfast_manager::json::{JsonMember, JsonNumber, JsonValue};
use xfast_manager::profile_json::{get_i64, get_ignore_list, get_string, lookup_value, parse_profile_json};

fn text(s: &str) -> JsonValue {
    JsonValue::Text(s.to_string())
}

fn num(n: i64) -> JsonValue {
    JsonValue::Number(JsonNumber { exact: Some(n), cast: n })
}

fn members(pairs: Vec<(&str, JsonValue)>) -> Vec<JsonMember> {
    pairs
        .into_iter()
        .map(|(k, v)| JsonMember { key: k.to_string(), value: v })
        .collect()
}

fn obj(pairs: Vec<(&str, JsonValue)>) -> JsonValue {
    JsonValue::Object(members(pairs))
}

#[test]
fn lookup_prefers_exact_key_then_any_case() {
    let m = members(vec![("LOGIN", text("upper")), ("login", text("exact"))]);
    match lookup_value(&m, "login") {
        Some(JsonValue::Text(s)) => assert_eq!(s, "exact"),
        _ => panic!("login not found"),
    }
    match lookup_value(&m, "Login") {
        Some(JsonValue::Text(s)) => assert_eq!(s, "upper"),
        _ => panic!("Login not found"),
    }
    assert!(lookup_value(&m, "user").is_none());
}

#[test]
fn string_and_integer_lookups() {
    let m = members(vec![
        ("user", text("   ")),
        ("email", text(" me@example.com ")),
        ("revision", text("build 1234")),
        ("since", JsonValue::Number(JsonNumber { exact: None, cast: 3 })),
    ]);
    assert_eq!(get_string(&m, &["login", "user", "email"]), Some("me@example.com".to_string()));
    assert_eq!(get_i64(&m, &["since", "revision"]), Some(1234));
    assert_eq!(get_i64(&m, &["since"]), None);
}

#[test]
fn ignore_list_from_array_or_text() {
    let m = members(vec![(
        "ignoreList",
        JsonValue::Array(vec![text("./a/b, c\\d"), num(3), text("a/b;/e")]),
    )]);
    assert_eq!(
        get_ignore_list(&m, &["ignoreList", "ignore"]),
        vec!["a/b".to_string(), "c/d".to_string(), "e".to_string()]
    );
    let t = members(vec![("exclude", text("x\ny\nx"))]);
    assert_eq!(get_ignore_list(&t, &["ignore", "exclude"]), vec!["x".to_string(), "y".to_string()]);
    assert!(get_ignore_list(&t, &["ignore"]).is_empty());
}

#[test]
fn profile_from_nested_document() {
    let doc = obj(vec![(
        "Profile",
        obj(vec![
            ("updateHost", text("update.example.com/")),
            ("auth", obj(vec![("username", text("pilot")), ("token", text("SECRET"))])),
            ("version", text("2.3 (45)")),
            ("ignore", text("Liveries")),
        ]),
    )]);
    let p = parse_profile_json(&doc).unwrap();
    assert_eq!(p.host, "https://update.example.com");
    assert_eq!(p.login, Some("pilot".to_string()));
    assert_eq!(p.license_key, Some("SECRET".to_string()));
    assert_eq!(p.package_version, Some(2345));
    assert_eq!(p.version_label, Some("2.3 (45)".to_string()));
    assert_eq!(p.ignore_list, vec!["Liveries".to_string()]);
}

#[test]
fn profile_needs_an_object() {
    assert!(parse_profile_json(&JsonValue::Array(vec![])).is_none());
    let p = parse_profile_json(&obj(vec![])).unwrap();
    assert_eq!(p.host, "https://update.x-plane.org");
    assert_eq!(p.login, None);
    assert!(p.ignore_list.is_empty());
}
