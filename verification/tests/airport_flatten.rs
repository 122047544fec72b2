use xfast_manager::flatten::{
    is_airport_header, is_flatten_line, parse_airport_header, rebuild_text, set_flatten_state_in_text,
    summarize_apt_text, upsert_flatten_in_block,
};

const SAMPLE_APT: &str = "I\n1100 Generated by test\n1 0 0 0 KSEA Seattle Intl\n1302 datum_lat 47.449\n1302 datum_lon -122.309\n100 45 1 0 0 0 0 0 16L 47.45 -122.31 34R 47.44 -122.30\n1 0 0 0 KPDX Portland Intl\n1302 datum_lat 45.589\n100 45 1 0 0 0 0 0 10L 45.58 -122.59 28R 45.60 -122.58\n";

fn chars(s: &str) -> Vec<char> {
    s.chars().collect()
}

#[test]
fn summarize_apt_text_detects_flatten_metadata() {
    let text = "I\n1100 Generated by test\n1 0 0 0 KSEA Seattle Intl\n1302 flatten 1\n100 45 1 0 0 0 0 0 16L 47.45 -122.31 34R 47.44 -122.30\n";
    let airports = summarize_apt_text(text);

    assert_eq!(airports.len(), 1);
    assert_eq!(airports[0].icao, "KSEA");
    assert!(airports[0].flattened);
}

#[test]
fn enabling_flatten_updates_only_target_airport() {
    let (updated, airport_name) = set_flatten_state_in_text(SAMPLE_APT, "KSEA", true).unwrap();

    assert_eq!(airport_name, "Seattle Intl");
    assert!(updated.contains("1 0 0 0 KSEA Seattle Intl\n1302 datum_lat 47.449\n1302 datum_lon -122.309\n1302 flatten 1\n100 45 1 0 0 0 0 0 16L 47.45 -122.31 34R 47.44 -122.30"));
    assert!(!updated.contains("KPDX Portland Intl\n1302 flatten 1"));
}

#[test]
fn disabling_flatten_preserves_other_metadata() {
    let text = "I\n1100 Generated by test\n1 0 0 0 KSEA Seattle Intl\n1302 datum_lat 47.449\n1302 flatten 1\n1302 datum_lon -122.309\n100 45 1 0 0 0 0 0 16L 47.45 -122.31 34R 47.44 -122.30\n";
    let (updated, _) = set_flatten_state_in_text(text, "KSEA", false).unwrap();

    assert!(updated.contains("1302 datum_lat 47.449"));
    assert!(updated.contains("1302 datum_lon -122.309"));
    assert!(!updated.contains("1302 flatten 1"));
}

#[test]
fn summary_after_enabling_marks_only_the_target() {
    let (updated, _) = set_flatten_state_in_text(SAMPLE_APT, "ksea", true).unwrap();
    let airports = summarize_apt_text(&updated);
    assert_eq!(airports.len(), 2);
    assert_eq!(airports[0].icao, "KSEA");
    assert!(airports[0].flattened);
    assert_eq!(airports[1].icao, "KPDX");
    assert!(!airports[1].flattened);
}

#[test]
fn unknown_airport_is_an_error() {
    let err = set_flatten_state_in_text(SAMPLE_APT, "EGLL", true).unwrap_err();
    assert_eq!(err, "Airport EGLL was not found in apt.dat");
}

#[test]
fn crlf_text_keeps_its_line_endings() {
    let text = "I\r\n1 0 0 0 KSEA Seattle Intl\r\n1302 datum_lat 47.449\r\n";
    let (updated, name) = set_flatten_state_in_text(text, "KSEA", true).unwrap();
    assert_eq!(name, "Seattle Intl");
    assert_eq!(updated, "I\r\n1 0 0 0 KSEA Seattle Intl\r\n1302 datum_lat 47.449\r\n1302 flatten 1\r\n");
}

#[test]
fn header_fields_are_read_from_tokens() {
    let parsed = parse_airport_header(&chars("1 0 0 0 ksea  Seattle   Intl")).unwrap();
    assert_eq!(parsed.0, "KSEA");
    assert_eq!(parsed.1, "Seattle Intl");
    let bare = parse_airport_header(&chars("16 0 0 0 x1")).unwrap();
    assert_eq!(bare.0, "X1");
    assert_eq!(bare.1, "X1");
    assert!(parse_airport_header(&chars("1 0 0 0")).is_none());
    assert!(is_airport_header(&chars("17 0 0 0 H1")));
    assert!(!is_airport_header(&chars("1302 flatten 1")));
    assert!(is_flatten_line(&chars("1302   flatten 1")));
    assert!(!is_flatten_line(&chars("1302 flatten 0")));
}

#[test]
fn flatten_row_goes_after_last_metadata_row() {
    let block = vec![chars("1 0 0 0 KSEA S"), chars("100 rw"), chars("1302 a 1"), chars("1302 flatten 1"), chars("110 x")];
    let on = upsert_flatten_in_block(&block, true);
    let expected: Vec<Vec<char>> = vec![chars("1 0 0 0 KSEA S"), chars("100 rw"), chars("1302 a 1"), chars("1302 flatten 1"), chars("110 x")];
    assert_eq!(on, expected);
    let off = upsert_flatten_in_block(&block, false);
    let expected_off: Vec<Vec<char>> = vec![chars("1 0 0 0 KSEA S"), chars("100 rw"), chars("1302 a 1"), chars("110 x")];
    assert_eq!(off, expected_off);
    let rebuilt = rebuild_text(&vec![chars("a"), chars("b")], &chars("x\n"));
    assert_eq!(rebuilt, chars("a\nb\n"));
}

#[test]
fn switching_on_then_off_gives_the_text_back() {
    let (on, name) = set_flatten_state_in_text(SAMPLE_APT, "KSEA", true).unwrap();
    let (again, _) = set_flatten_state_in_text(&on, "KSEA", true).unwrap();
    assert_eq!(again, on);
    let (off, name_off) = set_flatten_state_in_text(&on, "KSEA", false).unwrap();
    assert_eq!(off, SAMPLE_APT);
    assert_eq!(name, name_off);
    let (on_pdx, _) = set_flatten_state_in_text(SAMPLE_APT, "kpdx", true).unwrap();
    let (off_pdx, _) = set_flatten_state_in_text(&on_pdx, "KPDX", false).unwrap();
    assert_eq!(off_pdx, SAMPLE_APT);
}
