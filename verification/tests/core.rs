use autosocket::ident::{gen_guid16, gen_hex16, hex16, TokenCounter};
use autosocket::index::{PrefabCache, ScanObs};
use autosocket::meta::{
    extract_guid, format_name_value, parse_meta_name_field, parse_object_field,
    parse_txo_socket_names, MetaError,
};
use autosocket::paths::{
    auto_detect_svn_blocking, cache_key_for, file_name_of, file_stem_of, join_path, parent_of,
    prefab_index_path, presets_path, rel_from_known_roots, resolve_et_save_path, settings_path,
    PathError,
};
use autosocket::resolver::{
    extract_guid_from_socket_name, normalize_socket_key, prefab_candidates_from_socket,
    resolve_socket, suggest_source_directories,
};
use autosocket::strmap::AssocMap;

fn is_hex16(s: &str) -> bool {
    s.len() == 16 && s.chars().all(|c| c.is_ascii_hexdigit() && !c.is_ascii_lowercase())
}

#[test]
fn guid_extraction_round_trips() {
    let guid = "aabbccdd00112233";
    let name = format_name_value(guid, "Assets/Props/door.xob");
    assert_eq!(name, "{aabbccdd00112233}Assets/Props/door.xob");
    assert_eq!(extract_guid(&name), Some("AABBCCDD00112233".to_string()));
}

#[test]
fn guid_extraction_rejects_malformed() {
    assert_eq!(extract_guid("{aabb}x"), None);
    assert_eq!(extract_guid("no braces at all"), None);
    assert_eq!(extract_guid("{zzbbccdd00112233}x"), None);
    assert_eq!(extract_guid("  {AABBCCDD00112233}rel/path"), Some("AABBCCDD00112233".into()));
}

#[test]
fn object_field_parses_and_errors() {
    let good = "MetaFileClass {\n Name \"{0123456789ABCDEF}Assets/a.xob\"\n}\n";
    assert_eq!(
        parse_object_field(good),
        Ok(("0123456789ABCDEF".to_string(), "Assets/a.xob".to_string()))
    );
    assert_eq!(parse_object_field("nothing here"), Err(MetaError::NameFieldMissing));
    assert_eq!(parse_object_field("Name \"unterminated"), Err(MetaError::NameFieldUnterminated));
    assert_eq!(parse_object_field("Name \"plain-value\""), Err(MetaError::GuidMissing));
    assert_eq!(
        parse_meta_name_field(good),
        Some("{0123456789ABCDEF}Assets/a.xob".to_string())
    );
}

#[test]
fn txo_sockets_in_file_order_with_duplicates() {
    let txo = "$node \"socket_door_01\" x\n$node\"Socket_Window\"\n$node \"not_a_socket\"\n$node \"socket_door_01\"";
    let names = parse_txo_socket_names(txo);
    assert_eq!(names, vec!["socket_door_01", "Socket_Window", "socket_door_01"]);
}

#[test]
fn socket_key_normalization() {
    assert_eq!(normalize_socket_key("  Socket-Door 01 "), "socket_door_01");
}

#[test]
fn embedded_socket_guid() {
    assert_eq!(
        extract_guid_from_socket_name("socket_AAAA000000000001_dup"),
        Some("AAAA000000000001".to_string())
    );
    assert_eq!(extract_guid_from_socket_name("socket_short"), None);
    assert_eq!(extract_guid_from_socket_name("bolt_AAAA000000000001"), None);
}

#[test]
fn candidates_strip_numeric_suffix() {
    let c = prefab_candidates_from_socket("socket_door_frame_02");
    assert_eq!(c, vec!["door_frame_02".to_string(), "door_frame".to_string()]);
    let c2 = prefab_candidates_from_socket("socket_a..b__c.et");
    assert_eq!(c2, vec!["a_b_c".to_string()]);
    assert_eq!(prefab_candidates_from_socket("nosocket"), Vec::<String>::new());
}

#[test]
fn fuzzy_resolution_via_suffix_stripping() {
    // A socket with no embedded GUID and no external hint resolves through
    // the candidate with the trailing numeric suffix stripped.
    let mut names: AssocMap<String> = AssocMap::new();
    names.insert("door_frame.et".to_string(), "{1111111111111111}Prefabs/door_frame.et".into());
    let guids: AssocMap<String> = AssocMap::new();
    let got = resolve_socket("socket_door_frame_02", None, &guids, &names);
    assert_eq!(got, Some("{1111111111111111}Prefabs/door_frame.et".to_string()));
}

#[test]
fn external_hint_beats_embedded_guid() {
    // The socket embeds a GUID pointing at prefab B, but the external tool
    // hint points at prefab A: the hint wins.
    let mut guids: AssocMap<String> = AssocMap::new();
    guids.insert("AAAAAAAAAAAAAAAA".to_string(), "prefab_a".to_string());
    guids.insert("BBBBBBBBBBBBBBBB".to_string(), "prefab_b".to_string());
    let names: AssocMap<String> = AssocMap::new();
    let mut hints: AssocMap<String> = AssocMap::new();
    hints.insert(
        normalize_socket_key("socket_BBBBBBBBBBBBBBBB"),
        "AAAAAAAAAAAAAAAA".to_string(),
    );
    let got = resolve_socket("socket_BBBBBBBBBBBBBBBB", Some(&hints), &guids, &names);
    assert_eq!(got, Some("prefab_a".to_string()));
    // Without the hint, the embedded GUID decides.
    let got2 = resolve_socket("socket_BBBBBBBBBBBBBBBB", None, &guids, &names);
    assert_eq!(got2, Some("prefab_b".to_string()));
}

#[test]
fn both_embedded_guid_sockets_resolve_alike() {
    let mut guids: AssocMap<String> = AssocMap::new();
    guids.insert("AAAA000000000001".to_string(), "shared_prefab".to_string());
    let names: AssocMap<String> = AssocMap::new();
    let a = resolve_socket("socket_AAAA000000000001", None, &guids, &names);
    let b = resolve_socket("socket_AAAA000000000001_dup", None, &guids, &names);
    assert_eq!(a, Some("shared_prefab".to_string()));
    assert_eq!(b, Some("shared_prefab".to_string()));
}

fn obs(key: &str, et: &str, meta: &str, mtime: u64, nv: Option<&str>) -> ScanObs {
    ScanObs {
        key: key.to_string(),
        et_path: et.to_string(),
        meta_path: meta.to_string(),
        mtime,
        name_value: nv.map(|s| s.to_string()),
        rel_path: et.to_string(),
    }
}

#[test]
fn scan_is_idempotent_on_unchanged_tree() {
    let cache = PrefabCache::new(String::new());
    let root = "/svn".to_string();
    let observations = vec![
        obs(
            "a.et",
            "/svn/Prefabs/a.et",
            "/svn/Prefabs/a.et.meta",
            100,
            Some("{AAAA000000000001}Prefabs/a.et"),
        ),
        obs(
            "b.et",
            "/svn/Prefabs/b.et",
            "/svn/Prefabs/b.et.meta",
            200,
            Some("{BBBB000000000002}Prefabs/b.et"),
        ),
    ];
    let once = cache.scan_reconcile(&root, &observations);
    let count1 = once.entry_count();
    // An unchanged second pass: same files, same times, names unread.
    let second = vec![
        obs("a.et", "/svn/Prefabs/a.et", "/svn/Prefabs/a.et.meta", 100, None),
        obs("b.et", "/svn/Prefabs/b.et", "/svn/Prefabs/b.et.meta", 200, None),
    ];
    let twice = once.scan_reconcile(&root, &second);
    assert_eq!(count1, 2);
    assert_eq!(twice.entry_count(), 2);
    assert_eq!(
        twice.name_index().get(&"a.et".to_string()),
        Some(&"{AAAA000000000001}Prefabs/a.et".to_string())
    );
    assert_eq!(
        twice.guid_index().get(&"BBBB000000000002".to_string()),
        Some(&"{BBBB000000000002}Prefabs/b.et".to_string())
    );
    assert_eq!(
        twice.guid_path_index().get(&"AAAA000000000001".to_string()),
        Some(&"/svn/Prefabs/a.et".to_string())
    );
}

#[test]
fn deleted_sidecar_leaves_no_index_entry() {
    let cache = PrefabCache::new(String::new());
    let root = "/svn".to_string();
    let observations = vec![
        obs(
            "a.et",
            "/svn/Prefabs/a.et",
            "/svn/Prefabs/a.et.meta",
            100,
            Some("{AAAA000000000001}Prefabs/a.et"),
        ),
        obs(
            "b.et",
            "/svn/Prefabs/b.et",
            "/svn/Prefabs/b.et.meta",
            200,
            Some("{BBBB000000000002}Prefabs/b.et"),
        ),
    ];
    let once = cache.scan_reconcile(&root, &observations);
    // The sidecar of `a.et` vanishes before the rescan.
    let second = vec![obs("b.et", "/svn/Prefabs/b.et", "/svn/Prefabs/b.et.meta", 200, None)];
    let after = once.scan_reconcile(&root, &second);
    assert_eq!(after.entry_count(), 1);
    assert!(after.name_index().get(&"a.et".to_string()).is_none());
    assert!(after.et_path_index().get(&"a.et".to_string()).is_none());
    assert!(after.guid_index().get(&"AAAA000000000001".to_string()).is_none());
    assert!(after.guid_path_index().get(&"AAAA000000000001".to_string()).is_none());
    assert!(after.guid_path_index().get(&"BBBB000000000002".to_string()).is_some());
}

#[test]
fn root_change_rebuilds() {
    let cache = PrefabCache::new(String::new());
    let once = cache.scan_reconcile(
        &"/svn".to_string(),
        &vec![obs(
            "a.et",
            "/svn/Prefabs/a.et",
            "/svn/Prefabs/a.et.meta",
            100,
            Some("{AAAA000000000001}Prefabs/a.et"),
        )],
    );
    assert_eq!(once.entry_count(), 1);
    let moved = once.scan_reconcile(&"/elsewhere".to_string(), &vec![]);
    assert_eq!(moved.entry_count(), 0);
    assert_eq!(moved.root(), "/elsewhere");
}

#[test]
fn register_makes_template_resolvable() {
    let mut cache = PrefabCache::new("/svn".to_string());
    let nv = "{CCCC000000000003}Prefabs/new.et".to_string();
    cache.register(
        cache_key_for("/svn/Prefabs/New.et"),
        "/svn/Prefabs/New.et".to_string(),
        "/svn/Prefabs/New.et.meta".to_string(),
        &nv,
        Some(42),
    );
    assert_eq!(cache.entry_count(), 1);
    assert_eq!(cache.name_index().get(&"new.et".to_string()), Some(&nv));
    assert_eq!(
        cache.guid_path_index().get(&"CCCC000000000003".to_string()),
        Some(&"/svn/Prefabs/New.et".to_string())
    );
    assert!(cache.mtime_matches(&"/svn/Prefabs/New.et.meta".to_string(), 42));
}

#[test]
fn assoc_map_basics() {
    let mut m: AssocMap<String> = AssocMap::new();
    assert_eq!(m.len(), 0);
    m.insert("k".to_string(), "v1".to_string());
    m.insert("k".to_string(), "v2".to_string());
    m.insert("q".to_string(), "w".to_string());
    assert_eq!(m.len(), 2);
    assert_eq!(m.get(&"k".to_string()), Some(&"v2".to_string()));
    m.remove(&"k".to_string());
    assert_eq!(m.len(), 1);
    assert!(m.get(&"k".to_string()).is_none());
}

#[test]
fn identifier_tokens_are_sixteen_hex() {
    let mut ctr = TokenCounter::new();
    let a = gen_hex16(&mut ctr);
    let b = gen_hex16(&mut ctr);
    assert!(is_hex16(&a));
    assert!(is_hex16(&b));
    let g = gen_guid16();
    assert!(is_hex16(&g));
}

#[test]
fn hex_rendering_is_exact() {
    let cs = hex16(0x1234ABCD5678EF90);
    let s: String = cs.iter().collect();
    assert_eq!(s, "1234ABCD5678EF90");
    let z: String = hex16(0).iter().collect();
    assert_eq!(z, "0000000000000000");
}

#[test]
fn path_helpers() {
    assert_eq!(file_name_of("C:\\x\\y\\model.xob"), "model.xob");
    assert_eq!(file_name_of("/a/b/c.et"), "c.et");
    assert_eq!(file_stem_of("model.xob"), "model");
    assert_eq!(file_stem_of(".hidden"), ".hidden");
    assert_eq!(parent_of("/a/b/c.et"), Some("/a/b".to_string()));
    assert_eq!(parent_of("plain"), None);
    assert_eq!(join_path("/a/b", "c.et"), "/a/b/c.et");
    assert_eq!(join_path("/a/b/", "c.et"), "/a/b/c.et");
    assert_eq!(cache_key_for("/svn/Prefabs/Door.et"), "door.et");
}

#[test]
fn relative_from_known_roots() {
    assert_eq!(
        rel_from_known_roots("C:\\proj\\Assets\\mdl\\a.et"),
        "Assets/mdl/a.et"
    );
    assert_eq!(
        rel_from_known_roots("/home/x/Prefabs/door/frame.et"),
        "Prefabs/door/frame.et"
    );
    assert_eq!(rel_from_known_roots("/tmp/other/file.et"), "file.et");
}

#[test]
fn save_path_resolution() {
    assert_eq!(
        resolve_et_save_path("/models/crate.xob", None, false),
        Ok("/models/crate_test_prefab.et".to_string())
    );
    assert_eq!(
        resolve_et_save_path("/models/crate.xob", Some("/out"), true),
        Ok("/out/crate_test_prefab.et".to_string())
    );
    // An invalid save directory falls back to the model's own directory.
    assert_eq!(
        resolve_et_save_path("/models/crate.xob", Some("/missing"), false),
        Ok("/models/crate_test_prefab.et".to_string())
    );
    assert_eq!(
        resolve_et_save_path("crate.xob", None, false),
        Err(PathError::InvalidDirectory)
    );
}

#[test]
fn data_file_paths() {
    assert_eq!(prefab_index_path("/data"), "/data/AutoSocket_PrefabIndex.json");
    assert_eq!(settings_path("/data"), "/data/AutoSocket_Settings.json");
    assert_eq!(presets_path("/data"), "/data/AutoSocket_Presets.json");
}

#[test]
fn svn_root_detection_order() {
    let stored = "/stored".to_string();
    let cached = "/cached".to_string();
    assert_eq!(
        auto_detect_svn_blocking(Some(&stored), true, Some(&cached), true, None),
        Some("/stored".to_string())
    );
    assert_eq!(
        auto_detect_svn_blocking(Some(&stored), false, Some(&cached), true, None),
        Some("/cached".to_string())
    );
    assert_eq!(
        auto_detect_svn_blocking(None, false, Some(&cached), false, Some("/found".into())),
        Some("/found".to_string())
    );
    assert_eq!(auto_detect_svn_blocking(None, false, None, false, None), None);
}

#[test]
fn suggested_directories_dedup_and_exclude() {
    let mut guids: AssocMap<String> = AssocMap::new();
    guids.insert("AAAA000000000001".to_string(), "a".to_string());
    let mut gpaths: AssocMap<String> = AssocMap::new();
    gpaths.insert("AAAA000000000001".to_string(), "/lib/props/a.et".to_string());
    let names: AssocMap<String> = AssocMap::new();
    let epaths: AssocMap<String> = AssocMap::new();
    let sockets = vec![
        "socket_AAAA000000000001".to_string(),
        "socket_AAAA000000000001_dup".to_string(),
    ];
    let dirs = suggest_source_directories(
        &sockets, None, &guids, &names, &gpaths, &epaths, &Vec::new(), None,
    );
    assert_eq!(dirs, vec!["/lib/props".to_string()]);
    // A directory under the excluded root is dropped.
    let excl = "/LIB".to_string();
    let dirs2 = suggest_source_directories(
        &sockets, None, &guids, &names, &gpaths, &epaths, &Vec::new(), Some(&excl),
    );
    assert_eq!(dirs2, Vec::<String>::new());
    // A directory already known is dropped.
    let known = vec!["/lib/props".to_string()];
    let dirs3 = suggest_source_directories(
        &sockets, None, &guids, &names, &gpaths, &epaths, &known, None,
    );
    assert_eq!(dirs3, Vec::<String>::new());
}
