use autosocket::dstgen::{parse_geometry_param_names, replace_full_dst_markers, MetaEntry, ZoneInfo};
use autosocket::scan::{
    assemble_full_dst_zones, assemble_phases_debris, dbr_sort_key, geom_part_letter,
    match_dst_debris_name, match_full_debris_name, match_phase_name, parse_num_or,
};

fn entry(guid: &str, path: &str) -> MetaEntry {
    MetaEntry { guid: guid.to_string(), path: path.to_string() }
}

#[test]
fn number_parsing_saturates_to_fallback() {
    let v: Vec<char> = "0042".chars().collect();
    assert_eq!(parse_num_or(&v, 9999), 42);
    let w: Vec<char> = "99999999999999999999".chars().collect();
    assert_eq!(parse_num_or(&w, 9999), 9999);
    let e: Vec<char> = Vec::new();
    assert_eq!(parse_num_or(&e, 7), 7);
    let x: Vec<char> = "12a".chars().collect();
    assert_eq!(parse_num_or(&x, 7), 7);
}

#[test]
fn debris_file_names() {
    assert_eq!(
        match_full_debris_name("House_V2_dst_ID-B_dbr_12.xob", "House"),
        Some(('B', 12))
    );
    assert_eq!(
        match_full_debris_name("house_v2_dst_id-a_dbr_3.XOB", "House"),
        Some(('A', 3))
    );
    assert_eq!(match_full_debris_name("House_V2_dst_ID-B.xob", "House"), None);
    assert_eq!(match_full_debris_name("Other_V2_dst_ID-B_dbr_1.xob", "House"), None);
}

#[test]
fn geometry_tag_letters() {
    assert_eq!(geom_part_letter("UTM_Wall_FDST_ID-C"), Some('C'));
    assert_eq!(geom_part_letter("x_VIS-!b"), Some('B'));
    assert_eq!(geom_part_letter("x_VIS-a^b"), Some('A'));
    assert_eq!(geom_part_letter("nothing here"), None);
}

#[test]
fn full_dst_zone_assembly() {
    let files = vec![
        ("House_V2_dst_ID-B_dbr_2.xob".to_string(), entry("BB20000000000002", "Assets/b2.xob")),
        ("House_V2_dst_ID-B_dbr_1.xob".to_string(), entry("BB10000000000001", "Assets/b1.xob")),
        ("House_V2_dst.xob".to_string(), entry("ABCD000000000099", "Assets/v2.xob")),
    ];
    let params = vec![
        "UTM_House_FDST_ID-A".to_string(),
        "UTM_House_VIS-B".to_string(),
    ];
    let zones = assemble_full_dst_zones(&files, "House", &params);
    // Letters come sorted: A from the geometry tags, B from the debris.
    assert_eq!(zones.len(), 2);
    assert_eq!(zones[0].part_id, "A");
    assert!(zones[0].debris.is_empty());
    assert_eq!(zones[0].colliders, vec!["UTM_House_FDST_ID-A".to_string()]);
    assert_eq!(zones[1].part_id, "B");
    // Debris sorted by sequence number.
    assert_eq!(zones[1].debris.len(), 2);
    assert_eq!(zones[1].debris[0].guid, "BB10000000000001");
    assert_eq!(zones[1].debris[1].guid, "BB20000000000002");
    assert_eq!(zones[1].colliders, vec!["UTM_House_VIS-B".to_string()]);
}

#[test]
fn geometry_param_lines_dedup() {
    let text = "GeometryParam UTM_Base {\n  GeometryParam \"UTM House\" {\nGeometryParam utm_base {\nGeometryParam NoBrace\n";
    let names = parse_geometry_param_names(text);
    assert_eq!(names, vec!["UTM_Base".to_string(), "UTM House".to_string()]);
}

#[test]
fn phase_and_debris_names() {
    assert_eq!(match_phase_name("Crate_dst_1.xob", "Crate"), Some("01".to_string()));
    assert_eq!(match_phase_name("crate_DST_12.XOB", "Crate"), Some("12".to_string()));
    assert_eq!(match_phase_name("Crate_dst_1_dbr_2.xob", "Crate"), None);
    assert_eq!(
        match_dst_debris_name("Crate_dst_1_dbr_2.xob", "Crate"),
        Some("01".to_string())
    );
    assert_eq!(match_dst_debris_name("Crate_dst_1.xob", "Crate"), None);
    assert_eq!(dbr_sort_key("/x/Crate_dst_1_dbr_7.xob"), 7);
    assert_eq!(dbr_sort_key("/x/Crate_dst_1.xob"), 9999);
}

#[test]
fn phases_sorted_and_completed() {
    let files = vec![
        ("Crate_dst_2.xob".to_string(), entry("22B0000000000002", "Assets/p2.xob")),
        ("Crate_dst_1_dbr_2.xob".to_string(), entry("DD20000000000002", "Assets/c_dst_1_dbr_2.xob")),
        ("Crate_dst_1_dbr_1.xob".to_string(), entry("DD10000000000001", "Assets/c_dst_1_dbr_1.xob")),
        ("Crate_dst_10.xob".to_string(), entry("AA10000000000010", "Assets/p10.xob")),
    ];
    let (phases, debris) = assemble_phases_debris(&files, "Crate");
    // Phase 01 exists only through its debris, so it is completed with an
    // empty reference; phases come sorted numerically.
    assert_eq!(phases.len(), 3);
    assert_eq!(phases[0].0, "01");
    assert_eq!(phases[0].1 .0, "");
    assert_eq!(phases[1].0, "02");
    assert_eq!(phases[2].0, "10");
    assert_eq!(debris.len(), 1);
    assert_eq!(debris[0].0, "01");
    assert_eq!(debris[0].1.len(), 2);
    assert_eq!(debris[0].1[0].0, "DD10000000000001");
    assert_eq!(debris[0].1[1].0, "DD20000000000002");
}

#[test]
fn full_dst_marker_replacement() {
    let zones = vec![ZoneInfo {
        part_id: "A".to_string(),
        debris: vec![entry("DD10000000000001", "Assets/d1.xob")],
        colliders: vec!["id-a".to_string()],
    }];
    // Only whole-line markers are replaced.
    let text2 = "block {\n  {{DEBRIS_ID-A}}\n  {{COLLIDERS_ID-A}}\n  {{DEBRIS_ID-B}}\n}";
    let out = replace_full_dst_markers(text2, &zones);
    assert!(out.contains("  SCR_DebrisInfo \"{"));
    assert!(out.contains("ModelPrefab \"{DD10000000000001}Assets/d1.xob\""));
    assert!(out.contains("  \"id-a\""));
    // An unknown zone letter yields an empty debris block line.
    assert!(!out.contains("{{DEBRIS_ID-A}}"));
    assert!(!out.contains("{{COLLIDERS_ID-A}}"));
    assert!(!out.contains("{{DEBRIS_ID-B}}"));
}
