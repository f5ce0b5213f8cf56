use autosocket::dstgen::{
    apply_zone_hp, build_colliders_line, build_debris_infos_block, build_zone_fractal_from_preset,
    clone_fractalpart_block, ensure_fractalparts_zone_count, extract_fractalpart_blocks,
    extract_template_body, find_fractalparts_bounds, geometry_param_belongs_to_part,
    parse_preset_header, render_scr_destructible_template, replace_gen_guid_markers,
    replace_gen_vec3_markers, replace_object_marker, replace_v2_model_marker,
    strip_preset_header, MetaEntry,
};
use autosocket::etgen::{
    build_child_entities_block, build_et_meta_text, build_new_et_with_mesh,
    build_slot_component_text_from_mappings, detect_newline, group_mappings,
    insert_or_replace_child_entities_block, insert_or_replace_slot_component, remove_blank_lines,
};
use autosocket::ident::TokenCounter;

fn count_occurrences(haystack: &str, needle: &str) -> usize {
    let mut n = 0;
    let mut from = 0;
    while let Some(i) = haystack[from..].find(needle) {
        n += 1;
        from = from + i + needle.len();
    }
    n
}

fn hex16_at(s: &str, after: &str) -> String {
    let i = s.find(after).unwrap() + after.len();
    s[i..i + 16].to_string()
}

#[test]
fn newline_detection() {
    assert_eq!(detect_newline("a\r\nb"), "\r\n");
    assert_eq!(detect_newline("a\nb"), "\n");
    assert_eq!(detect_newline("plain"), "\n");
}

#[test]
fn blank_lines_are_dropped() {
    assert_eq!(remove_blank_lines("a\n\n  \nb\nc\n"), "a\nb\nc");
}

#[test]
fn et_meta_text_is_exact() {
    let t = build_et_meta_text("{AAAA000000000001}Prefabs/x.et");
    let expected = "MetaFileClass {\n Name \"{AAAA000000000001}Prefabs/x.et\"\n Configurations {\n  EntityTemplateResourceClass PC {\n  }\n  EntityTemplateResourceClass XBOX_ONE : PC {\n  }\n  EntityTemplateResourceClass XBOX_SERIES : PC {\n  }\n  EntityTemplateResourceClass PS4 : PC {\n  }\n  EntityTemplateResourceClass PS5 : PC {\n  }\n  EntityTemplateResourceClass HEADLESS : PC {\n  }\n }\n}\n";
    assert_eq!(t, expected);
}

#[test]
fn root_block_structure() {
    let mut ctr = TokenCounter::new();
    let t = build_new_et_with_mesh("0000000000000001", "{G}Assets/m.xob", &mut ctr);
    assert!(t.starts_with("GenericEntity {\n ID \"0000000000000001\"\n components {\n  MeshObject \"{"));
    assert!(t.contains("   Object \"{G}Assets/m.xob\"\n"));
    assert!(t.ends_with(" coords 0 0 0\n}\n"));
    let mesh = hex16_at(&t, "MeshObject \"{");
    assert!(mesh.chars().all(|c| c.is_ascii_hexdigit()));
}

#[test]
fn slot_component_lists_every_mapping() {
    let mut ctr = TokenCounter::new();
    let maps = vec![
        ("socket_a".to_string(), "pa".to_string()),
        ("socket_b".to_string(), "pb".to_string()),
    ];
    let t = build_slot_component_text_from_mappings(&maps, &mut ctr).unwrap();
    assert!(t.starts_with("  WB_SlotBoneMappingsComponent \"{"));
    assert_eq!(count_occurrences(&t, "SlotBoneMappingObject"), 2);
    assert!(t.contains("     BonePrefix \"socket_a\"\n     Prefab \"pa\"\n"));
    assert!(t.contains("     BonePrefix \"socket_b\"\n     Prefab \"pb\"\n"));
    assert!(build_slot_component_text_from_mappings(&Vec::new(), &mut ctr).is_none());
}

#[test]
fn grouping_is_sorted_and_merged() {
    let maps = vec![
        ("s1".to_string(), "zeta".to_string()),
        ("s2".to_string(), "alpha".to_string()),
        ("s3".to_string(), "zeta".to_string()),
    ];
    let groups = group_mappings(&maps);
    assert_eq!(groups.len(), 2);
    assert_eq!(groups[0].0, "alpha");
    assert_eq!(groups[0].1, vec!["s2".to_string()]);
    assert_eq!(groups[1].0, "zeta");
    assert_eq!(groups[1].1, vec!["s1".to_string(), "s3".to_string()]);
}

#[test]
fn shared_prefab_becomes_grouped_block() {
    // Two sockets embedding the same GUID resolve to one prefab: the child
    // block holds one grouped declaration with two child instances.
    let mut ctr = TokenCounter::new();
    let maps = vec![
        ("socket_AAAA000000000001".to_string(), "shared.et".to_string()),
        ("socket_AAAA000000000001_dup".to_string(), "shared.et".to_string()),
    ];
    let t = build_child_entities_block(&maps, "HHHH000000000001", &mut ctr).unwrap();
    assert_eq!(count_occurrences(&t, "$grp GenericEntity : \"shared.et\""), 1);
    assert_eq!(count_occurrences(&t, "PivotID"), 2);
    assert!(t.contains("PivotID \"socket_AAAA000000000001\""));
    assert!(t.contains("PivotID \"socket_AAAA000000000001_dup\""));
    assert!(t.starts_with(" {\n"));
    assert!(t.ends_with(" }\n"));
}

#[test]
fn single_prefab_becomes_plain_child() {
    let mut ctr = TokenCounter::new();
    let maps = vec![("socket_x".to_string(), "one.et".to_string())];
    let t = build_child_entities_block(&maps, "HHHH000000000001", &mut ctr).unwrap();
    assert_eq!(count_occurrences(&t, "$grp"), 0);
    assert!(t.contains("  GenericEntity : \"one.et\" {\n"));
    assert!(t.contains("PivotID \"socket_x\""));
}

#[test]
fn slot_component_is_spliced_before_coords() {
    let mut ctr = TokenCounter::new();
    let et = build_new_et_with_mesh("0000000000000001", "{G}m.xob", &mut ctr);
    let with = insert_or_replace_slot_component(et, "  COMPONENT\n");
    let comp_at = with.find("  COMPONENT").unwrap();
    let coords_at = with.find(" coords 0 0 0").unwrap();
    assert!(comp_at < coords_at);
}

#[test]
fn child_block_is_spliced_after_coords_line() {
    let text = "A\n coords 0 0 0\nB\n".to_string();
    let out = insert_or_replace_child_entities_block(text, " CHILD\n");
    assert_eq!(out, "A\n coords 0 0 0\n CHILD\n\nB\n");
    // Without the anchor the block is appended.
    let out2 = insert_or_replace_child_entities_block("X".to_string(), "Y");
    assert_eq!(out2, "X\nY");
}

#[test]
fn preset_header_fields() {
    let text = "Id: p1\nTitle: Crates\nGenerator: zone_fractal\n\nBODY";
    let h = parse_preset_header(text);
    assert_eq!(h.id, "p1");
    assert_eq!(h.title, "Crates");
    assert_eq!(h.generator, "zone_fractal");
    assert_eq!(h.description, "");
}

#[test]
fn header_stripping() {
    let text = "Id: p1\nTitle: T\n\nline1\nline2";
    assert_eq!(strip_preset_header(text), "line1\nline2");
    // An unexpected line ends the header early and stays.
    let text2 = "Id: p1\nGenericEntity {\nbody\n";
    assert_eq!(strip_preset_header(text2), "GenericEntity {\nbody");
}

#[test]
fn template_body_markers_preferred() {
    let text = "Id: x\n\n--- TEMPLATE ---\npayload line\n--- END TEMPLATE ---\ntrailer\n";
    assert_eq!(extract_template_body(text), "payload line\n");
    let text2 = "Id: x\n\nno markers here";
    assert_eq!(extract_template_body(text2), "no markers here");
}

#[test]
fn fractal_bounds_by_brace_depth() {
    let text = "X FractalParts {\n a { b }\n}\ntail";
    let (open, close, kw) = find_fractalparts_bounds(text).unwrap();
    assert_eq!(kw, 2);
    assert_eq!(&text[open..open + 1], "{");
    assert_eq!(&text[close..close + 1], "}");
    assert_eq!(close, text.find("\n}\n").unwrap() + 1);
    assert!(find_fractalparts_bounds("no block").is_none());
}

const PRESET: &str = "Id: demo\nGenerator: zone_fractal\n\nPrefab {\n Health 1\n FractalParts {\n  FractalPartData \"{1111111111111111}\" {\n   PartId \"A\"\n   MaxHealth 250\n   Tag \"A1\"\n  }\n  Budget 7\n }\n}\n";

#[test]
fn blocks_are_extracted_and_sorted() {
    let inner_text = "  FractalPartData x {\n   PartId \"B\"\n  }\n  FractalPartData y {\n   PartId \"A\"\n  }\n  other";
    let (blocks, others) = extract_fractalpart_blocks(inner_text);
    assert_eq!(blocks.len(), 2);
    assert_eq!(blocks[0].0, 'A');
    assert_eq!(blocks[1].0, 'B');
    assert!(blocks[0].1.contains("PartId \"A\""));
    assert_eq!(others, vec!["  other".to_string()]);
}

#[test]
fn cloned_block_is_relabeled_with_fresh_guid() {
    let block = "  FractalPartData \"{1111111111111111}\" {\n   PartId \"A\"\n   Tag \"A7\"\n   Ref \"A\"\n  }";
    let out = clone_fractalpart_block(block, 'A', 'C');
    assert!(out.contains("PartId \"C\""));
    assert!(out.contains("Tag \"C7\""));
    assert!(out.contains("Ref \"C\""));
    assert!(!out.contains("PartId \"A\""));
    let g = hex16_at(&out, "FractalPartData \"{");
    assert!(g.chars().all(|c| c.is_ascii_hexdigit()));
    assert_ne!(g, "1111111111111111");
}

#[test]
fn zone_count_is_reconciled_and_clamped() {
    // One letter-tagged block and a request of three yields A, B and C.
    let out = ensure_fractalparts_zone_count(PRESET, 3);
    assert_eq!(count_occurrences(&out, "PartId \"A\""), 1);
    assert_eq!(count_occurrences(&out, "PartId \"B\""), 1);
    assert_eq!(count_occurrences(&out, "PartId \"C\""), 1);
    assert_eq!(count_occurrences(&out, "FractalPartData"), 3);
    assert!(out.contains("Budget 7"));
    // Requests outside 1..=26 are clamped before use.
    let low = ensure_fractalparts_zone_count(PRESET, 0);
    assert_eq!(count_occurrences(&low, "FractalPartData"), 1);
    let high = ensure_fractalparts_zone_count(PRESET, 100);
    assert_eq!(count_occurrences(&high, "FractalPartData"), 26);
    assert_eq!(count_occurrences(&high, "PartId \"Z\""), 1);
    // Text without the block is left unchanged.
    assert_eq!(ensure_fractalparts_zone_count("plain", 5), "plain");
}

#[test]
fn cloned_zones_share_substituted_health() {
    let three = ensure_fractalparts_zone_count(PRESET, 3);
    let healed = apply_zone_hp(&three, 500);
    assert_eq!(count_occurrences(&healed, "MaxHealth 500"), 3);
    assert_eq!(count_occurrences(&healed, "MaxHealth 250"), 0);
    // The clones carry distinct fresh GUIDs.
    let mut guids: Vec<String> = Vec::new();
    let mut from = 0;
    while let Some(i) = healed[from..].find("FractalPartData \"{") {
        let start = from + i + "FractalPartData \"{".len();
        guids.push(healed[start..start + 16].to_string());
        from = start;
    }
    assert_eq!(guids.len(), 3);
    assert!(guids.iter().all(|g| g.chars().all(|c| c.is_ascii_hexdigit())));
    assert_ne!(guids[1], guids[0]);
    assert_ne!(guids[2], guids[1]);
}

#[test]
fn object_and_model_markers() {
    let text = "x Object \"{guid from xob input}path from xob input\" y";
    let out = replace_object_marker(text, "AAAA000000000001", "Assets/m.xob");
    assert_eq!(out, "x Object \"{AAAA000000000001}Assets/m.xob\" y");
    let text2 = "Model \"same name_v2_dst here\"";
    let out2 = replace_v2_model_marker(text2, "BBBB000000000002", "Assets/m_V2_dst.xob");
    assert_eq!(out2, "Model \"{BBBB000000000002}Assets/m_V2_dst.xob\"");
}

#[test]
fn gen_markers() {
    let out = replace_gen_guid_markers("a {gen guid} b \"gen guid\" c");
    assert!(!out.contains("{gen guid}"));
    assert!(!out.contains("\"gen guid\""));
    let b1 = hex16_at(&out, "a {");
    assert!(b1.chars().all(|c| c.is_ascii_hexdigit()));
    assert_eq!(replace_gen_vec3_markers("p {gen vec3} q"), "p 0 0 0 q");
}

#[test]
fn colliders_line_forms() {
    assert_eq!(build_colliders_line(&Vec::new()), "\"\"");
    assert_eq!(
        build_colliders_line(&vec!["id-a".to_string(), "vis-a".to_string()]),
        "\"id-a\" \"vis-a\""
    );
}

#[test]
fn debris_block_rows() {
    let items = vec![
        MetaEntry { guid: "AAAA000000000001".into(), path: "Assets/d1.xob".into() },
        MetaEntry { guid: "BBBB000000000002".into(), path: "Assets/d2.xob".into() },
    ];
    let out = build_debris_infos_block(&items, "   ");
    assert_eq!(count_occurrences(&out, "SCR_DebrisInfo \"{"), 2);
    assert!(out.contains(" ModelPrefab \"{AAAA000000000001}Assets/d1.xob\""));
    assert!(out.contains(" ModelPrefab \"{BBBB000000000002}Assets/d2.xob\""));
    assert_eq!(count_occurrences(&out, " m_fMass 500"), 2);
    assert!(out.starts_with("   SCR_DebrisInfo"));
    assert_eq!(build_debris_infos_block(&Vec::new(), " "), "");
}

#[test]
fn geometry_param_tags() {
    assert!(geometry_param_belongs_to_part("UTM_Base_FDST_ID-A", "a"));
    assert!(geometry_param_belongs_to_part("wall_VIS-B", "B"));
    assert!(geometry_param_belongs_to_part("wall_VIS-!C", "c"));
    assert!(!geometry_param_belongs_to_part("wall_VIS-B", "a"));
    assert!(!geometry_param_belongs_to_part("anything", ""));
}

#[test]
fn zone_fractal_pipeline() {
    let preset = "Id: demo\nGenerator: zone_fractal\n\nPrefab {\n Object \"{guid from xob input}path\"\n Ids \"{gen guid}\"\n FractalParts {\n  FractalPartData \"{1111111111111111}\" {\n   PartId \"A\"\n   MaxHealth 250\n  }\n }\n}\n";
    let out = build_zone_fractal_from_preset(
        preset,
        "AAAA000000000001",
        "Assets/m.xob",
        Some("BBBB000000000002"),
        Some("Assets/m_V2_dst.xob"),
        2,
        750,
    );
    assert!(out.contains("Object \"{AAAA000000000001}Assets/m.xob\""));
    assert!(!out.contains("{gen guid}"));
    assert_eq!(count_occurrences(&out, "PartId \"A\""), 1);
    assert_eq!(count_occurrences(&out, "PartId \"B\""), 1);
    assert_eq!(count_occurrences(&out, "MaxHealth 750"), 2);
    assert!(!out.starts_with("Id:"));
}

#[test]
fn scr_template_rendering() {
    let preset = "Id: t\nGenerator: template\n\n--- TEMPLATE ---\nE {{ENTITY_ID}}\nM {{MESH_ID_BRACED}}\n{{BASE_OBJECT_LINE}}\nF {{FIRST_PHASE_MODEL}}\nL {{LAST_PHASE_MODEL}}\nFD {{FIRST_PHASE_DEBRIS}}\nLD {{LAST_PHASE_DEBRIS}}\n--- END TEMPLATE ---\n";
    let phases = vec![
        ("01".to_string(), ("11A0000000000001".to_string(), "Assets/p1.xob".to_string())),
        ("02".to_string(), ("22B0000000000002".to_string(), "Assets/p2.xob".to_string())),
    ];
    let debris = vec![(
        "01".to_string(),
        vec![("DD10000000000001".to_string(), "Assets/d1.xob".to_string())],
    )];
    let out = render_scr_destructible_template(
        preset,
        "BASE000000000001",
        "Assets/base.xob",
        &phases,
        &debris,
    );
    assert!(!out.contains("{{ENTITY_ID}}"));
    assert!(out.contains("   Object \"{BASE000000000001}Assets/base.xob\""));
    assert!(out.contains("F \"{11A0000000000001}Assets/p1.xob\""));
    assert!(out.contains("L \"{22B0000000000002}Assets/p2.xob\""));
    assert!(out.contains("FD \"{DD10000000000001}Assets/d1.xob\""));
    assert!(out.contains("LD \n") || out.ends_with("LD "));
}
