use xfast_manager::gateway_payload::{
    extract_airport_directory_entries, parse_gateway_airport_detail, parse_gateway_airport_summary,
    parse_gateway_feature_labels, parse_gateway_release_directory, parse_gateway_scenery_detail,
    parse_release_scenery_set, pick_gateway_comment, pick_gateway_status, sort_airports_by_icao,
};
use xfast_manager::gateway::GatewayAirportSearchResult;
use xfast_manager::json::{JsonMember, JsonNumber, JsonValue};

fn text(s: &str) -> JsonValue {
    JsonValue::Text(s.to_string())
}

fn num(n: i64) -> JsonValue {
    JsonValue::Number(JsonNumber { exact: Some(n), cast: n })
}

fn members(pairs: Vec<(&str, JsonValue)>) -> Vec<JsonMember> {
    pairs
        .into_iter()
        .map(|(k, v)| JsonMember { key: k.to_string(), value: v })
        .collect()
}

fn obj(pairs: Vec<(&str, JsonValue)>) -> JsonValue {
    JsonValue::Object(members(pairs))
}

#[test]
fn feature_labels_map_known_ids_and_keep_unknown_tokens() {
    let record = members(vec![
        ("type", text("Airport")),
        ("features", text("1, abc ,999,,1")),
        ("runwayCount", num(2)),
        ("gates", JsonValue::Array(vec![num(1), num(2), num(3)])),
        ("tags", JsonValue::Array(vec![text(" busy "), text(""), text("abc")])),
    ]);
    let labels = parse_gateway_feature_labels(&record);
    assert_eq!(
        labels,
        vec![
            "Airport".to_string(),
            "Has ATC Flow".to_string(),
            "abc".to_string(),
            "Feature 999".to_string(),
            "RWY 2".to_string(),
            "Gates 3".to_string(),
            "busy".to_string(),
        ]
    );
}

#[test]
fn status_falls_back_to_dates() {
    let declined = members(vec![("dateDeclined", text("2020-01-01")), ("dateApproved", text("x"))]);
    assert_eq!(pick_gateway_status(&declined), Some("Declined".to_string()));
    let approved = members(vec![("dateApproved", text("2020-01-01"))]);
    assert_eq!(pick_gateway_status(&approved), Some("Approved".to_string()));
    let explicit = members(vec![("status", text(" Uploaded ")), ("dateApproved", text("x"))]);
    assert_eq!(pick_gateway_status(&explicit), Some("Uploaded".to_string()));
    let none = members(vec![("comment", text("hi"))]);
    assert_eq!(pick_gateway_status(&none), None);
}

#[test]
fn comment_joins_artist_and_moderator_notes() {
    let both = members(vec![
        ("artistComments", text("artist")),
        ("moderatorComments", text("mod")),
        ("comments", text("ignored")),
    ]);
    assert_eq!(pick_gateway_comment(&both), Some("artist\n\nmod".to_string()));
    let same = members(vec![("artistComments", text("same")), ("moderatorComments", text("same"))]);
    assert_eq!(pick_gateway_comment(&same), Some("same".to_string()));
    let fallback = members(vec![("description", text("desc"))]);
    assert_eq!(pick_gateway_comment(&fallback), Some("desc".to_string()));
    assert_eq!(pick_gateway_comment(&members(vec![])), None);
}

#[test]
fn airport_summary_reads_nested_airport_and_recommended_submission() {
    let payload = obj(vec![(
        "airport",
        obj(vec![
            ("AirportCode", text(" ksea ")),
            ("AirportName", text("Seattle")),
            ("RecommendedSceneryId", num(42)),
            (
                "scenery",
                JsonValue::Array(vec![
                    obj(vec![("sceneryId", num(41)), ("userName", text("bob"))]),
                    obj(vec![
                        ("sceneryId", num(42)),
                        ("userName", text("alice")),
                        ("dateAccepted", text("2024-01-02")),
                    ]),
                ]),
            ),
        ]),
    )]);
    let s = parse_gateway_airport_summary(&payload, "").unwrap();
    assert_eq!(s.icao, "KSEA");
    assert_eq!(s.airport_name, Some("Seattle".to_string()));
    assert_eq!(s.scenery_count, Some(2));
    assert_eq!(s.recommended_scenery_id, Some(42));
    assert_eq!(s.recommended_artist, Some("alice".to_string()));
    assert_eq!(s.recommended_accepted_at, Some("2024-01-02".to_string()));
}

#[test]
fn airport_summary_needs_a_code_and_some_data() {
    assert!(parse_gateway_airport_summary(&obj(vec![("AirportName", text("X"))]), "").is_none());
    assert!(parse_gateway_airport_summary(&obj(vec![("icao", text("EGLL"))]), "").is_none());
    let with_fallback = parse_gateway_airport_summary(&obj(vec![("name", text("Heathrow"))]), "egll").unwrap();
    assert_eq!(with_fallback.icao, "EGLL");
    assert!(parse_gateway_airport_summary(&text("KSEA"), "KSEA").is_none());
}

#[test]
fn airport_detail_sorts_recommended_then_newest() {
    let payload = obj(vec![
        ("icao", text("KBOS")),
        ("recommendedSceneryId", num(7)),
        (
            "sceneries",
            JsonValue::Array(vec![
                obj(vec![("id", num(5)), ("dateApproved", text("2021-01-01"))]),
                obj(vec![("id", num(6)), ("dateApproved", text("2023-01-01"))]),
                obj(vec![("id", num(7)), ("dateApproved", text("2020-01-01"))]),
                obj(vec![("id", num(8))]),
                obj(vec![("id", num(-3))]),
            ]),
        ),
    ]);
    let d = parse_gateway_airport_detail(&payload, "").unwrap();
    let ids: Vec<i64> = d.sceneries.iter().map(|s| s.scenery_id).collect();
    assert_eq!(ids, vec![7, 6, 5, 8]);
    assert!(d.sceneries[0].recommended);
    assert!(!d.sceneries[1].recommended);
    assert_eq!(d.scenery_count, Some(5));
    assert_eq!(d.icao, "KBOS");
}

#[test]
fn scenery_detail_reads_nested_record() {
    let payload = obj(vec![
        (
            "scenery",
            obj(vec![
                ("sceneryId", num(99)),
                ("status", text("Approved")),
                ("airport", obj(vec![("icao", text("LFPG")), ("name", text("CDG"))])),
                ("sceneryFiles", obj(vec![("masterZipBlob", text("UEsDBA=="))])),
            ]),
        ),
    ]);
    let d = parse_gateway_scenery_detail(&payload, 1).unwrap();
    assert_eq!(d.scenery_id, 99);
    assert_eq!(d.icao, Some("LFPG".to_string()));
    assert_eq!(d.airport_name, Some("CDG".to_string()));
    assert_eq!(d.status, Some("Approved".to_string()));
    assert_eq!(d.master_zip_blob, Some("UEsDBA==".to_string()));
}

#[test]
fn scenery_detail_with_nothing_is_none() {
    assert!(parse_gateway_scenery_detail(&obj(vec![("x", num(1))]), 0).is_none());
    let kept = parse_gateway_scenery_detail(&obj(vec![("x", num(1))]), 12).unwrap();
    assert_eq!(kept.scenery_id, 12);
}

#[test]
fn directory_entries_from_array_or_object() {
    let entry = |code: &str| obj(vec![("AirportCode", text(code)), ("SceneryCount", num(3))]);
    let from_array = extract_airport_directory_entries(&JsonValue::Array(vec![entry("KAAA"), text("junk"), entry("KBBB")]));
    let codes: Vec<String> = from_array.iter().map(|a| a.icao.clone()).collect();
    assert_eq!(codes, vec!["KAAA".to_string(), "KBBB".to_string()]);
    let from_object = extract_airport_directory_entries(&obj(vec![("results", JsonValue::Array(vec![entry("kccc")]))]));
    assert_eq!(from_object.len(), 1);
    assert_eq!(from_object[0].icao, "KCCC");
    assert_eq!(from_object[0].scenery_count, Some(3));
    assert!(extract_airport_directory_entries(&num(3)).is_empty());
}

#[test]
fn airports_sort_by_icao() {
    let mk = |icao: &str| GatewayAirportSearchResult {
        icao: icao.to_string(),
        airport_name: None,
        scenery_count: None,
        recommended_scenery_id: None,
        recommended_artist: None,
        recommended_accepted_at: None,
        ahead_of_current_xplane: None,
    };
    let sorted = sort_airports_by_icao(vec![mk("KSEA"), mk("EGLL"), mk("KBOS"), mk("EGLL")]);
    let codes: Vec<String> = sorted.iter().map(|a| a.icao.clone()).collect();
    assert_eq!(codes, vec!["EGLL".to_string(), "EGLL".to_string(), "KBOS".to_string(), "KSEA".to_string()]);
}

#[test]
fn release_directory_sorted_by_version() {
    let rel = |v: &str, d: &str| obj(vec![("Version", text(v)), ("Date", text(d))]);
    let payload = JsonValue::Array(vec![
        rel("12.1.0", "2024-05-01"),
        rel(" 11.50r3 ", "2021-01-01"),
        rel("not a version", "2020-01-01"),
        obj(vec![("Version", text("12.0.9"))]),
        rel("12.0.9", "2023-09-01"),
    ]);
    let list = parse_gateway_release_directory(&payload);
    let versions: Vec<String> = list.iter().map(|r| r.version.clone()).collect();
    assert_eq!(versions, vec!["11.50r3".to_string(), "12.0.9".to_string(), "12.1.0".to_string()]);
    assert_eq!(list[1].date, "2023-09-01");
    assert!(parse_gateway_release_directory(&obj(vec![])).is_empty());
}

#[test]
fn release_scenery_set_keeps_positive_ids() {
    let payload = obj(vec![(
        "sceneryPacks",
        JsonValue::Array(vec![num(3), num(-1), num(0), text("4"), num(3), num(10)]),
    )]);
    let set = parse_release_scenery_set(&payload);
    let mut ids: Vec<i64> = set.into_iter().collect();
    ids.sort();
    assert_eq!(ids, vec![3, 10]);
    assert!(parse_release_scenery_set(&JsonValue::Null).is_empty());
}
