use xfast_manager::apt_index::{
    apply_block_rewrite, compress_airports_for_cache, rewrite_airport_block, scan_apt_lines_for_cache,
    trim_line_bytes, CachedAirportRecord, ScannedLine,
};
use xfast_manager::flatten::{AirportFlattenSearchResult, AirportFlattenSourceKind};
use xfast_manager::flatten_index::{
    airport_flatten_targets, cached_airport_for, current_flattened_for, derive_airport_flatten_index,
    resolve_flatten_source, search_flatten_rows, single_custom_source_for_folder, sources_for_icao,
    update_cached_flatten_state, upsert_search_entry, FileStamp, SetAirportFlattenRequest,
    SourceFileIndexEntry,
};

fn line(text: &str) -> ScannedLine {
    ScannedLine { text: text.to_string(), byte_len: text.len() as u64 + 1 }
}

fn rec(icao: &str, name: &str, flattened: bool, start: u64, end: u64) -> CachedAirportRecord {
    CachedAirportRecord {
        icao: icao.to_string(),
        airport_name: name.to_string(),
        flattened,
        byte_start: start,
        byte_end: end,
    }
}

fn file(kind: AirportFlattenSourceKind, label: &str, path: &str, folder: Option<&str>, airports: Vec<CachedAirportRecord>) -> SourceFileIndexEntry {
    SourceFileIndexEntry {
        source_kind: kind,
        source_label: label.to_string(),
        source_path: path.to_string(),
        folder_name: folder.map(|f| f.to_string()),
        stamp: FileStamp { modified_ms: Some(1), len: 10 },
        airports,
    }
}

fn sample_files() -> Vec<SourceFileIndexEntry> {
    vec![
        file(
            AirportFlattenSourceKind::Default,
            "Global Airports",
            "/x/Global Airports/apt.dat",
            None,
            vec![rec("KSEA", "Seattle", false, 0, 100), rec("KPDX", "Portland", true, 100, 180)],
        ),
        file(
            AirportFlattenSourceKind::Custom,
            "Zeta KSEA",
            "/x/Custom Scenery/Zeta KSEA/apt.dat",
            Some("Zeta KSEA"),
            vec![rec("KSEA", "Seattle Custom", true, 0, 50)],
        ),
        file(
            AirportFlattenSourceKind::Custom,
            "Alpha KSEA",
            "/x/Custom Scenery/Alpha KSEA/apt.dat",
            Some("Alpha KSEA"),
            vec![rec("KSEA", "", false, 0, 40)],
        ),
    ]
}

#[test]
fn trim_line_bytes_drops_line_endings_only() {
    assert_eq!(trim_line_bytes(b"1302 flatten 1\r\n"), b"1302 flatten 1".to_vec());
    assert_eq!(trim_line_bytes(b"\n\r\n"), Vec::<u8>::new());
    assert_eq!(trim_line_bytes(b" a \t"), b" a \t".to_vec());
}

#[test]
fn scan_records_block_offsets() {
    let lines = vec![
        line("I"),
        line("1100 Version"),
        line("1 10 0 0 ksea Seattle Tacoma"),
        line("100 runway"),
        line("  1302   flatten   1  "),
        line("1 20 0 0 KPDX"),
        line("99"),
    ];
    let recs = scan_apt_lines_for_cache(&lines);
    assert_eq!(recs.len(), 2);
    assert_eq!(recs[0].icao, "KSEA");
    assert_eq!(recs[0].airport_name, "Seattle Tacoma");
    assert!(recs[0].flattened);
    assert_eq!(recs[0].byte_start, 2 + 13);
    assert_eq!(recs[0].byte_end, 2 + 13 + 29 + 11 + 23);
    assert_eq!(recs[1].icao, "KPDX");
    assert_eq!(recs[1].airport_name, "KPDX");
    assert!(!recs[1].flattened);
    assert_eq!(recs[1].byte_start, recs[0].byte_end);
    assert_eq!(recs[1].byte_end, recs[1].byte_start + 14 + 3);
}

#[test]
fn compress_merges_codes_and_sorts() {
    let out = compress_airports_for_cache(vec![
        rec("KSEA", "first", true, 50, 80),
        rec("EGLL", "Heathrow", false, 0, 10),
        rec("KSEA", "second", false, 10, 120),
    ]);
    assert_eq!(out.len(), 2);
    assert_eq!(out[0].icao, "EGLL");
    assert_eq!(out[1].icao, "KSEA");
    assert_eq!(out[1].airport_name, "first");
    assert!(!out[1].flattened);
    assert_eq!(out[1].byte_start, 10);
    assert_eq!(out[1].byte_end, 120);
}

#[test]
fn block_rewrite_moves_later_records() {
    let mut recs = vec![rec("EGLL", "A", false, 0, 10), rec("KSEA", "B", false, 10, 30), rec("KPDX", "C", true, 30, 45)];
    apply_block_rewrite(&mut recs, "ksea", true, "Seattle", 15);
    assert_eq!(recs[0].byte_end, 10);
    assert_eq!((recs[1].byte_start, recs[1].byte_end), (10, 45));
    assert!(recs[1].flattened);
    assert_eq!(recs[1].airport_name, "Seattle");
    assert_eq!((recs[2].byte_start, recs[2].byte_end), (45, 60));
    apply_block_rewrite(&mut recs, "KSEA", false, "Seattle", -15);
    assert_eq!((recs[1].byte_start, recs[1].byte_end), (10, 30));
    assert_eq!((recs[2].byte_start, recs[2].byte_end), (30, 45));
}

#[test]
fn rewrite_block_reports_growth() {
    let block = "1 10 0 0 KSEA Seattle\n100 runway\n";
    let w = rewrite_airport_block(block, block.len() as u64, "KSEA", true).unwrap();
    assert_eq!(w.airport_name, "Seattle");
    let updated = w.updated_block.unwrap();
    assert!(updated.contains("1302 flatten 1"));
    assert_eq!(w.delta, updated.len() as i64 - block.len() as i64);
    let same = rewrite_airport_block(block, block.len() as u64, "KSEA", false).unwrap();
    assert!(same.updated_block.is_none());
    assert_eq!(same.delta, 0);
    let err = rewrite_airport_block(block, block.len() as u64, "KPDX", true).unwrap_err();
    assert_eq!(err, "Airport KPDX was not found in apt.dat");
}

#[test]
fn sources_are_sorted_by_label() {
    let files = sample_files();
    let refs = sources_for_icao(&files, "KSEA");
    let labels: Vec<&str> = refs.iter().map(|r| r.source_label.as_str()).collect();
    assert_eq!(labels, vec!["Alpha KSEA", "Global Airports", "Zeta KSEA"]);
    assert!(sources_for_icao(&files, "ksea").is_empty());
    let single = single_custom_source_for_folder(&files, "Zeta KSEA").unwrap();
    assert_eq!(single.airport_name, "Seattle Custom");
    assert!(single.flattened);
    assert!(single_custom_source_for_folder(&files, "Nope").is_none());
}

#[test]
fn derived_rows_count_sources() {
    let index = derive_airport_flatten_index(sample_files());
    assert_eq!(index.search_rows.len(), 2);
    assert_eq!(index.search_rows[0].icao, "KPDX");
    let sea = &index.search_rows[1];
    assert_eq!(sea.icao, "KSEA");
    assert_eq!(sea.airport_name, "Seattle");
    assert!(sea.has_default_source);
    assert_eq!(sea.custom_source_count, 2);
}

#[test]
fn upsert_search_entry_takes_first_nonempty_name() {
    let mut rows: Vec<AirportFlattenSearchResult> = Vec::new();
    upsert_search_entry(&mut rows, "KSEA".to_string(), "".to_string(), AirportFlattenSourceKind::Custom);
    upsert_search_entry(&mut rows, "KSEA".to_string(), "Seattle".to_string(), AirportFlattenSourceKind::Custom);
    upsert_search_entry(&mut rows, "KSEA".to_string(), "Other".to_string(), AirportFlattenSourceKind::Default);
    assert_eq!(rows.len(), 1);
    assert_eq!(rows[0].airport_name, "Seattle");
    assert_eq!(rows[0].custom_source_count, 2);
    assert!(rows[0].has_default_source);
}

#[test]
fn switch_then_read_back() {
    let mut files = sample_files();
    let path = "/x/Global Airports/apt.dat";
    assert_eq!(current_flattened_for(&files, path, "ksea"), Some(false));
    update_cached_flatten_state(&mut files, "KSEA", path, true, "Seattle Intl", 15, Some(FileStamp { modified_ms: Some(9), len: 25 }));
    assert_eq!(current_flattened_for(&files, path, "KSEA"), Some(true));
    let a = cached_airport_for(&files, path, "KSEA").unwrap();
    assert_eq!(a.airport_name, "Seattle Intl");
    assert_eq!((a.byte_start, a.byte_end), (0, 115));
    let pdx = cached_airport_for(&files, path, "KPDX").unwrap();
    assert_eq!((pdx.byte_start, pdx.byte_end), (115, 195));
    assert_eq!(files[0].stamp.len, 25);
    assert_eq!(current_flattened_for(&files, "/missing", "KSEA"), None);
}

#[test]
fn resolve_request_sources() {
    let files = sample_files();
    let base = SetAirportFlattenRequest {
        xplane_path: "/x".to_string(),
        icao: " ksea ".to_string(),
        source_kind: AirportFlattenSourceKind::Default,
        source_path: None,
        folder_name: None,
        enabled: true,
    };
    let d = resolve_flatten_source(&base, Some(&files)).unwrap();
    assert_eq!(d.source_label, "Global Airports");
    assert_eq!(resolve_flatten_source(&base, None).unwrap_err(), "Airport flatten index is unavailable");

    let mut custom = base.clone();
    custom.source_kind = AirportFlattenSourceKind::Custom;
    assert_eq!(resolve_flatten_source(&custom, Some(&files)).unwrap_err(), "folderName is required for custom scenery flattening");
    custom.folder_name = Some("Alpha KSEA".to_string());
    assert_eq!(resolve_flatten_source(&custom, Some(&files)).unwrap().source_path, "/x/Custom Scenery/Alpha KSEA/apt.dat");
    custom.folder_name = Some("Missing".to_string());
    assert_eq!(resolve_flatten_source(&custom, Some(&files)).unwrap_err(), "Custom airport source not found for Missing");

    let mut by_path = base.clone();
    by_path.source_path = Some("/elsewhere/apt.dat".to_string());
    let made = resolve_flatten_source(&by_path, Some(&files)).unwrap();
    assert_eq!(made.source_label, "Global Airports");
    assert_eq!(made.airport_name, "KSEA");
    assert!(made.flattened);
    by_path.source_path = Some("/x/Custom Scenery/Zeta KSEA/apt.dat".to_string());
    assert_eq!(resolve_flatten_source(&by_path, Some(&files)).unwrap().airport_name, "Seattle Custom");

    let mut blank = base.clone();
    blank.icao = "  ".to_string();
    assert_eq!(resolve_flatten_source(&blank, Some(&files)).unwrap_err(), "ICAO is required");
    let mut unknown = base.clone();
    unknown.icao = "EGLL".to_string();
    assert_eq!(resolve_flatten_source(&unknown, Some(&files)).unwrap_err(), "Default airport source not found for EGLL");
}

#[test]
fn targets_and_search() {
    let files = sample_files();
    let targets = airport_flatten_targets(&files, "ksea").unwrap();
    assert_eq!(targets.len(), 3);
    assert_eq!(targets[0].icao, "KSEA");
    assert!(airport_flatten_targets(&files, " ").is_err());

    let index = derive_airport_flatten_index(files);
    let found = search_flatten_rows(&index.search_rows, " k ", None);
    let codes: Vec<&str> = found.iter().map(|r| r.icao.as_str()).collect();
    assert_eq!(codes, vec!["KSEA", "KPDX"]);
    let by_name = search_flatten_rows(&index.search_rows, "portland", Some(0));
    assert_eq!(by_name.len(), 1);
    assert_eq!(by_name[0].icao, "KPDX");
    assert!(search_flatten_rows(&index.search_rows, "   ", Some(5)).is_empty());
    let exact = search_flatten_rows(&index.search_rows, "ksea", Some(1));
    assert_eq!(exact.len(), 1);
    assert_eq!(exact[0].icao, "KSEA");
}

#[test]
fn cached_switch_refreshes_sources_of_that_file() {
    let mut files = sample_files();
    let path = "/x/Global Airports/apt.dat";
    update_cached_flatten_state(&mut files, "KSEA", path, true, "Seattle Intl", 15, None);
    for source in sources_for_icao(&files, "KSEA") {
        if source.source_path == path {
            assert!(source.flattened);
            assert_eq!(source.airport_name, "Seattle Intl");
        }
    }
    let records = &files[0].airports;
    for pair in records.windows(2) {
        assert!(pair[0].byte_end <= pair[1].byte_start);
    }
}
