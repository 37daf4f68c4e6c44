use cea_language_server::cea_api::{
    cache_contents_match, cache_directory_name, completion_marker, snapshot, snapshot_hash, snapshot_verdict,
    supported_versions, temporary_directory_name, unsupported_version, validate_snapshot,
    CheatEngineApiConfig, Snapshot,
};
use cea_language_server::json::JsonValue;
use cea_language_server::lua_config::{CeaOptions, LuaConfig};
use cea_language_server::workspace_files::{excluded, is_cea_file, should_search, MAX_DEPTH};

fn sample_snapshot() -> Snapshot {
    Snapshot {
        version: "7.7".to_owned(),
        files: vec![
            ("api.json".to_owned(), b"{\"version\":\"7.7\"}".to_vec()),
            ("core.d.lua".to_owned(), b"---@meta\nfunction f() end\n".to_vec()),
        ],
    }
}

fn with_declaration(content: &[u8]) -> Snapshot {
    let mut snapshot = sample_snapshot();
    snapshot.files[1].1 = content.to_vec();
    snapshot
}

#[test]
fn validates_the_bundled_snapshot() {
    assert_eq!(supported_versions(), ["7.7"]);
    validate_snapshot(&sample_snapshot()).unwrap();
}

#[test]
fn rejects_unsupported_versions() {
    let bundled = sample_snapshot();
    let config = CheatEngineApiConfig {
        version: "8.0".into(),
        ..Default::default()
    };
    assert!(snapshot(&config.version, &bundled)
        .unwrap_err()
        .contains("supported versions: 7.7"));
}

#[test]
fn names_the_refused_version_quoted() {
    assert_eq!(
        unsupported_version("8.0"),
        "unsupported Cheat Engine API version \"8.0\"; supported versions: 7.7"
    );
    let bundled = sample_snapshot();
    assert!(std::ptr::eq(snapshot("7.7", &bundled).unwrap(), &bundled));
}

#[test]
fn refuses_an_unreadable_manifest() {
    let mut snapshot = sample_snapshot();
    snapshot.files[0].1 = b"{not json".to_vec();
    assert!(validate_snapshot(&snapshot)
        .unwrap_err()
        .starts_with("invalid embedded CE API manifest: "));
}

#[test]
fn refuses_a_manifest_of_another_version() {
    let mut snapshot = sample_snapshot();
    snapshot.files[0].1 = b"{\"version\":\"7.6\"}".to_vec();
    assert_eq!(
        validate_snapshot(&snapshot).unwrap_err(),
        "embedded CE API manifest version does not match its snapshot"
    );
    snapshot.files[0].1 = b"{\"version\":77}".to_vec();
    assert_eq!(
        validate_snapshot(&snapshot).unwrap_err(),
        "embedded CE API manifest version does not match its snapshot"
    );
}

#[test]
fn refuses_declarations_that_are_not_plain_metadata() {
    assert!(validate_snapshot(&with_declaration(&[0xff, 0xfe]))
        .unwrap_err()
        .starts_with("core.d.lua is not valid UTF-8: "));
    assert_eq!(
        validate_snapshot(&with_declaration(b"function f() end\n")).unwrap_err(),
        "core.d.lua must begin with @meta"
    );
    assert_eq!(
        validate_snapshot(&with_declaration(b"---@meta\nlocal m = require(\"x\")\n")).unwrap_err(),
        "core.d.lua contains runtime behavior"
    );
    assert_eq!(
        validate_snapshot(&with_declaration(b"---@meta\nsetmetatable({}, {})\n")).unwrap_err(),
        "core.d.lua contains runtime behavior"
    );
}

#[test]
fn hashes_names_and_contents_with_fnv1a() {
    assert_eq!(snapshot_hash(&sample_snapshot()), 0x576e793a63834f06);
    let empty = Snapshot {
        version: "7.7".to_owned(),
        files: Vec::new(),
    };
    assert_eq!(snapshot_hash(&empty), 0xcbf29ce484222325);
}

#[test]
fn names_cache_directories_by_version_and_hash() {
    assert_eq!(cache_directory_name("7.7", 0xab), "7.7-00000000000000ab");
    assert_eq!(
        temporary_directory_name("7.7", 0x576e793a63834f06, 1234, 0),
        ".7.7-576e793a63834f06-1234.tmp"
    );
    assert_eq!(
        temporary_directory_name("7.7", 0x576e793a63834f06, 1234, 3),
        ".7.7-576e793a63834f06-1234-3.tmp"
    );
    assert_eq!(completion_marker(0x576e793a63834f06), "576e793a63834f06\n");
}

#[test]
fn matches_a_cache_only_when_every_file_is_identical() {
    let snapshot = sample_snapshot();
    let found: Vec<Option<Vec<u8>>> = snapshot.files.iter().map(|(_, c)| Some(c.clone())).collect();
    assert!(cache_contents_match(&snapshot, &found));
    let mut missing = found.clone();
    missing[1] = None;
    assert!(!cache_contents_match(&snapshot, &missing));
    let mut changed = found.clone();
    changed[0] = Some(b"{}".to_vec());
    assert!(!cache_contents_match(&snapshot, &changed));
    assert!(!cache_contents_match(&snapshot, &found[..1].to_vec()));
}

#[test]
fn defaults_without_initialization_options() {
    let config = LuaConfig::from_initialization_options(None).unwrap();
    assert!(config.path.is_none());
    assert!(config.runtime_version.is_none());
    assert!(config.runtime_path.is_empty());
    assert!(config.workspace_library.is_empty());
    assert!(config.cheat_engine_api.enabled);
    assert_eq!(config.cheat_engine_api.version, "7.7");
}

fn options(enabled: bool, version: &str) -> CeaOptions {
    CeaOptions {
        lua_language_server: LuaConfig {
            path: Some("/usr/bin/lua-language-server".to_owned()),
            runtime_version: Some("Lua 5.3".to_owned()),
            runtime_path: vec!["?.lua".to_owned()],
            workspace_library: vec!["/opt/lua".to_owned()],
            cheat_engine_api: CheatEngineApiConfig::default(),
        },
        cheat_engine_api: CheatEngineApiConfig {
            enabled,
            version: version.to_owned(),
        },
    }
}

#[test]
fn takes_lua_settings_and_the_chosen_api_from_options() {
    let config = LuaConfig::from_initialization_options(Some(options(false, "8.0"))).unwrap();
    assert_eq!(config.path.as_deref(), Some("/usr/bin/lua-language-server"));
    assert_eq!(config.runtime_version.as_deref(), Some("Lua 5.3"));
    assert_eq!(config.runtime_path, ["?.lua"]);
    assert_eq!(config.workspace_library, ["/opt/lua"]);
    assert!(!config.cheat_engine_api.enabled);
    assert_eq!(config.cheat_engine_api.version, "8.0");
}

#[test]
fn refuses_an_enabled_api_version_that_is_not_bundled() {
    let error = LuaConfig::from_initialization_options(Some(options(true, "8.0"))).unwrap_err();
    assert_eq!(
        error,
        "unsupported Cheat Engine API version \"8.0\"; supported versions: 7.7"
    );
    assert!(LuaConfig::from_initialization_options(Some(options(true, "7.7"))).is_ok());
}

#[test]
fn recognizes_scripts_and_skipped_directories() {
    assert!(is_cea_file(Some("cea")));
    assert!(is_cea_file(Some("CEA")));
    assert!(is_cea_file(Some("Cea")));
    assert!(!is_cea_file(Some("lua")));
    assert!(!is_cea_file(Some("ceax")));
    assert!(!is_cea_file(None));
    for name in [".git", ".hg", ".svn", "node_modules", "target", "dist", "build", "vendor"] {
        assert!(excluded(Some(name)), "{name}");
    }
    assert!(!excluded(Some("scripts")));
    assert!(!excluded(Some("Target")));
    assert!(!excluded(None));
}

#[test]
fn limits_the_search_by_depth_and_count() {
    assert!(should_search(0, 1));
    assert!(should_search(MAX_DEPTH, 5));
    assert!(!should_search(MAX_DEPTH + 1, 5));
    assert!(!should_search(3, 0));
}

#[test]
fn reads_the_manifest_version_from_a_json_object() {
    let mut snapshot = sample_snapshot();
    snapshot.files[0].1 = b"{\"name\":\"ce\",\"version\":\"7.7\",\"files\":[1,2.5,null,true]}".to_vec();
    assert!(validate_snapshot(&snapshot).is_ok());
    snapshot.files[0].1 = b"[\"7.7\"]".to_vec();
    assert_eq!(
        validate_snapshot(&snapshot).unwrap_err(),
        "embedded CE API manifest version does not match its snapshot"
    );
}

#[test]
fn judges_a_snapshot_from_its_read_manifest() {
    let snapshot = sample_snapshot();
    let manifest = JsonValue::Object(vec![("version".to_owned(), JsonValue::Text("7.7".to_owned()))]);
    assert!(snapshot_verdict(Ok(manifest), &snapshot).is_ok());
    let other = JsonValue::Object(vec![("version".to_owned(), JsonValue::Text("7.6".to_owned()))]);
    assert_eq!(
        snapshot_verdict(Ok(other), &snapshot).unwrap_err(),
        "embedded CE API manifest version does not match its snapshot"
    );
    assert_eq!(
        snapshot_verdict(Err("EOF while parsing".to_owned()), &snapshot).unwrap_err(),
        "invalid embedded CE API manifest: EOF while parsing"
    );
    let manifest = JsonValue::Object(vec![("version".to_owned(), JsonValue::Text("7.7".to_owned()))]);
    assert_eq!(
        snapshot_verdict(Ok(manifest), &with_declaration(b"print(1)\n")).unwrap_err(),
        "core.d.lua must begin with @meta"
    );
}
