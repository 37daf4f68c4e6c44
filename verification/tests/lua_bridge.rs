use cea_language_server::json::JsonValue;
use cea_language_server::keyed::UriMap;
use cea_language_server::lua_config::{lua_server_command, LuaConfig};
use cea_language_server::lua_paths::lua_path_configuration;
use cea_language_server::lua_protocol::{
    client_request_response, configuration_section, contains, filter_lua_diagnostics,
    is_uri_field, lua_configuration, source_of, related_source_uri, request_context, route_message,
    translate_request_uris, translate_response_uris, MessageRoute, ProxyDocument,
    ProxyDocuments,
};
use cea_language_server::text::{Position, Range};

fn text(s: &str) -> JsonValue {
    JsonValue::Text(s.to_owned())
}

fn object(members: Vec<(&str, JsonValue)>) -> JsonValue {
    JsonValue::Object(members.into_iter().map(|(k, v)| (k.to_owned(), v)).collect())
}

fn member<'a>(value: &'a JsonValue, key: &str) -> &'a JsonValue {
    match value {
        JsonValue::Object(members) => &members.iter().find(|(k, _)| k == key).unwrap().1,
        _ => panic!("not an object"),
    }
}

fn as_text(value: &JsonValue) -> &str {
    match value {
        JsonValue::Text(s) => s.as_str(),
        _ => panic!("not a string"),
    }
}

fn proxy_documents(virtual_uri: &str, source_uri: &str) -> ProxyDocuments {
    let mut documents = UriMap::new();
    documents.insert(
        virtual_uri.to_owned(),
        ProxyDocument {
            source_uri: source_uri.to_owned(),
            version: 1,
            source: String::new(),
            ranges: Vec::new(),
        },
    );
    documents
}

#[test]
fn translates_lua_path_into_runtime_patterns_and_unique_libraries() {
    let (runtime_paths, libraries) =
        lua_path_configuration("/opt/lua/?.lua;/opt/lua/?/init.lua;./?.lua;;");

    assert_eq!(
        runtime_paths,
        ["/opt/lua/?.lua", "/opt/lua/?/init.lua", "./?.lua"]
    );
    assert_eq!(libraries, ["/opt/lua", "."]);
}

#[test]
fn trims_entries_and_skips_patterns_without_a_directory() {
    let (runtime_paths, libraries) = lua_path_configuration("  ?.lua ; lib\\\\?.lua;plain;;lib/?.so ");
    assert_eq!(runtime_paths, ["?.lua", "lib\\\\?.lua", "plain", "lib/?.so"]);
    assert_eq!(libraries, ["lib"]);
}

#[test]
fn empty_lua_path_gives_no_settings() {
    let (runtime_paths, libraries) = lua_path_configuration(" ; ;");
    assert!(runtime_paths.is_empty());
    assert!(libraries.is_empty());
    let config = LuaConfig::default();
    assert!(lua_configuration(Some(" ; ;"), &config, Some("/work"), None).is_none());
    assert!(lua_configuration(None, &config, Some("/work"), None).is_none());
}

#[test]
fn lua_settings_hold_runtime_paths_and_libraries() {
    let settings = lua_configuration(Some("/opt/lua/?.lua"), &LuaConfig::default(), None, None).unwrap();
    let lua = member(&settings, "Lua");
    match member(member(lua, "runtime"), "path") {
        JsonValue::Array(items) => assert_eq!(as_text(&items[0]), "/opt/lua/?.lua"),
        _ => panic!("path is not an array"),
    }
    match member(member(lua, "workspace"), "library") {
        JsonValue::Array(items) => assert_eq!(as_text(&items[0]), "/opt/lua"),
        _ => panic!("library is not an array"),
    }
}

#[test]
fn answers_lua_ls_configuration_requests_by_section() {
    let configuration = object(vec![(
        "Lua",
        object(vec![
            ("runtime", object(vec![("path", JsonValue::Array(vec![text("?.lua")]))])),
            ("workspace", object(vec![("library", JsonValue::Array(vec![text("/opt/lua")]))])),
        ]),
    )]);
    let sections = Ok(vec![
        Some("Lua.runtime".to_owned()),
        Some("Lua.workspace.library".to_owned()),
        Some("Lua.missing".to_owned()),
    ]);

    let response = client_request_response(
        text("configuration"),
        "workspace/configuration",
        sections,
        JsonValue::Array(Vec::new()),
        &configuration,
    );

    match member(&response, "result") {
        JsonValue::Array(items) => {
            assert_eq!(items.len(), 3);
            match member(&items[0], "path") {
                JsonValue::Array(paths) => assert_eq!(as_text(&paths[0]), "?.lua"),
                _ => panic!("path is not an array"),
            }
            match &items[1] {
                JsonValue::Array(libraries) => assert_eq!(as_text(&libraries[0]), "/opt/lua"),
                _ => panic!("library is not an array"),
            }
            assert!(matches!(items[2], JsonValue::Null));
        }
        _ => panic!("result is not an array"),
    }
}

#[test]
fn acknowledges_dynamic_registration_and_rejects_unknown_client_requests() {
    let registration = client_request_response(
        JsonValue::Number("8".to_owned()),
        "client/registerCapability",
        Ok(Vec::new()),
        JsonValue::Array(Vec::new()),
        &object(Vec::new()),
    );
    let unknown = client_request_response(
        JsonValue::Number("9".to_owned()),
        "workspace/unknown",
        Ok(Vec::new()),
        JsonValue::Array(Vec::new()),
        &object(Vec::new()),
    );

    assert!(matches!(member(&registration, "result"), JsonValue::Null));
    match member(member(&unknown, "error"), "code") {
        JsonValue::Number(n) => assert_eq!(n, "-32601"),
        _ => panic!("code is not a number"),
    }
    assert_eq!(
        as_text(member(member(&unknown, "error"), "message")),
        "unsupported LuaLS client request: workspace/unknown"
    );
}

#[test]
fn rejects_lua_ls_workspace_edits() {
    let response = client_request_response(
        JsonValue::Number("10".to_owned()),
        "workspace/applyEdit",
        Err("unused".to_owned()),
        JsonValue::Array(Vec::new()),
        &object(Vec::new()),
    );

    assert!(matches!(
        member(member(&response, "result"), "applied"),
        JsonValue::Bool(false)
    ));
    assert_eq!(
        as_text(member(member(&response, "result"), "failureReason")),
        "LuaLS workspace edits are disabled to protect virtual CEA documents"
    );
}

#[test]
fn reports_unreadable_configuration_params() {
    let response = client_request_response(
        JsonValue::Number("3".to_owned()),
        "workspace/configuration",
        Err("missing field `items`".to_owned()),
        JsonValue::Array(Vec::new()),
        &object(Vec::new()),
    );
    match member(member(&response, "error"), "code") {
        JsonValue::Number(n) => assert_eq!(n, "-32602"),
        _ => panic!("code is not a number"),
    }
    assert_eq!(
        as_text(member(member(&response, "error"), "message")),
        "invalid workspace/configuration params: missing field `items`"
    );
}

#[test]
fn answers_workspace_folder_requests_with_the_folders() {
    let folders = JsonValue::Array(vec![text("file:///project")]);
    let response = client_request_response(
        JsonValue::Null,
        "workspace/workspaceFolders",
        Ok(Vec::new()),
        folders,
        &object(Vec::new()),
    );
    match member(&response, "result") {
        JsonValue::Array(items) => assert_eq!(as_text(&items[0]), "file:///project"),
        _ => panic!("result is not an array"),
    }
    assert_eq!(as_text(member(&response, "jsonrpc")), "2.0");
}

#[test]
fn selects_configuration_sections() {
    let configuration = object(vec![("Lua", object(vec![("x", text("y"))]))]);
    assert!(matches!(configuration_section(&configuration, ""), JsonValue::Object(_)));
    assert_eq!(as_text(&configuration_section(&configuration, "Lua.x")), "y");
    assert!(matches!(configuration_section(&configuration, "Lua.x.z"), JsonValue::Null));
    assert!(matches!(configuration_section(&configuration, "Other"), JsonValue::Null));
}

#[test]
fn request_errors_include_method_id_and_source_uri() {
    assert_eq!(
        request_context("textDocument/hover", 17, "file:///project/player.cea"),
        "LuaLS textDocument/hover request 17 for file:///project/player.cea"
    );
}

#[test]
fn range_contains_start_but_not_end() {
    let range = Range::new(Position::new(3, 2), Position::new(5, 0));

    assert!(contains(&range, Position::new(3, 2)));
    assert!(contains(&range, Position::new(4, 20)));
    assert!(!contains(&range, Position::new(5, 0)));
}

#[test]
fn recognizes_uri_fields() {
    assert!(is_uri_field("uri"));
    assert!(is_uri_field("targetUri"));
    assert!(!is_uri_field("Uri2"));
    assert!(!is_uri_field("label"));
}

#[test]
fn translates_only_virtual_document_uris_in_responses() {
    let virtual_uri = "file:///project/player.cea.lua";
    let source_uri = "file:///project/player.cea";
    let documents = proxy_documents(virtual_uri, source_uri);
    let response = object(vec![
        ("originSelectionRange", JsonValue::Null),
        ("targetUri", text(virtual_uri)),
        ("related", JsonValue::Array(vec![object(vec![("uri", text("file:///project/helpers.lua"))])])),
        ("changes", object(vec![(virtual_uri, JsonValue::Array(vec![object(vec![("newText", text(virtual_uri))])]))])),
    ]);

    let translated = translate_response_uris(&response, &documents);

    assert_eq!(as_text(member(&translated, "targetUri")), source_uri);
    match member(&translated, "related") {
        JsonValue::Array(items) => {
            assert_eq!(as_text(member(&items[0], "uri")), "file:///project/helpers.lua")
        }
        _ => panic!("related is not an array"),
    }
    match member(member(&translated, "changes"), source_uri) {
        JsonValue::Array(changes) => {
            assert_eq!(as_text(member(&changes[0], "newText")), virtual_uri)
        }
        _ => panic!("changes are not an array"),
    }
}

#[test]
fn translates_diagnostic_related_information_and_data_uris() {
    let virtual_uri = "file:///project/player.cea.lua";
    let source_uri = "file:///project/player.cea";
    let documents = proxy_documents(virtual_uri, source_uri);
    let data = object(vec![("targetUri", text(virtual_uri)), ("label", text(virtual_uri))]);

    assert_eq!(related_source_uri(virtual_uri, &documents), source_uri);
    let translated = translate_response_uris(&data, &documents);
    assert_eq!(as_text(member(&translated, "targetUri")), source_uri);
    assert_eq!(as_text(member(&translated, "label")), virtual_uri);
}

#[test]
fn keeps_uris_of_unknown_documents() {
    let documents = proxy_documents("file:///a.cea", "file:///b.cea");
    assert_eq!(related_source_uri("file:///c.cea", &documents), "file:///c.cea");
    let value = object(vec![("uri", text("not a url"))]);
    assert_eq!(as_text(member(&translate_response_uris(&value, &documents), "uri")), "not a url");
}

#[test]
fn translates_script_uris_in_requests() {
    let value = object(vec![
        ("textDocument", object(vec![("uri", text("file:///a.cea"))])),
        ("file:///a.cea", text("file:///a.cea")),
    ]);
    let translated = translate_request_uris(&value, "file:///a.cea", "file:///a.cea.lua");
    assert_eq!(
        as_text(member(member(&translated, "textDocument"), "uri")),
        "file:///a.cea.lua"
    );
    assert_eq!(as_text(member(&translated, "file:///a.cea.lua")), "file:///a.cea");
}

#[test]
fn filters_diagnostics_outside_embedded_lua_ranges() {
    let ranges = [Range::new(Position::new(2, 0), Position::new(4, 0))];
    let inside = (
        Range::new(Position::new(3, 1), Position::new(3, 4)),
        "inside",
    );
    let outside = (
        Range::new(Position::new(5, 0), Position::new(5, 3)),
        "outside",
    );

    let filtered = filter_lua_diagnostics(vec![inside, outside], &ranges);

    assert_eq!(filtered.len(), 1);
    assert_eq!(filtered[0].1, "inside");
}

#[test]
fn routes_lua_ls_messages() {
    assert_eq!(route_message(true, false, None, true, Some(1)), MessageRoute::InitializeResponse);
    assert_eq!(route_message(false, false, None, true, Some(1)), MessageRoute::Response(1));
    assert_eq!(route_message(false, false, None, true, None), MessageRoute::Ignore);
    assert_eq!(
        route_message(false, true, Some("textDocument/publishDiagnostics"), false, None),
        MessageRoute::PublishDiagnostics
    );
    assert_eq!(
        route_message(true, true, Some("workspace/configuration"), true, Some(4)),
        MessageRoute::ClientRequest
    );
    assert_eq!(route_message(false, true, Some("$/progress"), false, None), MessageRoute::Ignore);
}

#[test]
fn recognizes_virtual_documents_by_their_parsed_url() {
    let virtual_uri = "file:///project/player.cea.lua";
    let source_uri = "file:///project/player.cea";
    let documents = proxy_documents(virtual_uri, source_uri);
    let response = object(vec![
        ("targetUri", text("file:///project/scripts/../player.cea.lua")),
        ("changes", object(vec![("FILE:///project/./player.cea.lua", JsonValue::Array(Vec::new()))])),
    ]);

    let translated = translate_response_uris(&response, &documents);

    assert_eq!(as_text(member(&translated, "targetUri")), source_uri);
    assert!(matches!(member(member(&translated, "changes"), source_uri), JsonValue::Array(_)));
}

#[test]
fn passes_responses_through_without_virtual_documents() {
    let documents: ProxyDocuments = UriMap::new();
    let response = object(vec![
        ("targetUri", text("file:///project/player.cea")),
        ("changes", object(vec![("file:///project/player.cea", JsonValue::Array(vec![text("x")]))])),
        ("count", JsonValue::Number("3".to_owned())),
    ]);
    let translated = translate_response_uris(&response, &documents);
    assert_eq!(as_text(member(&translated, "targetUri")), "file:///project/player.cea");
    assert!(matches!(
        member(member(&translated, "changes"), "file:///project/player.cea"),
        JsonValue::Array(items) if items.len() == 1
    ));
    assert!(matches!(member(&translated, "count"), JsonValue::Number(n) if n == "3"));
}

fn texts_at<'a>(value: &'a JsonValue, keys: &[&str]) -> Vec<&'a str> {
    let mut value = value;
    for key in keys {
        value = member(value, key);
    }
    match value {
        JsonValue::Array(items) => items.iter().map(as_text).collect(),
        _ => panic!("not an array"),
    }
}

#[test]
fn expands_double_semicolons_to_the_default_layouts() {
    let settings = lua_configuration(Some("/opt/lua/?.lua;;"), &LuaConfig::default(), None, None).unwrap();
    assert_eq!(
        texts_at(&settings, &["Lua", "runtime", "path"]),
        ["/opt/lua/?.lua", "?.lua", "?/init.lua"]
    );
    assert_eq!(texts_at(&settings, &["Lua", "workspace", "library"]), ["/opt/lua"]);

    let settings = lua_configuration(Some(";;"), &LuaConfig::default(), None, None).unwrap();
    assert_eq!(texts_at(&settings, &["Lua", "runtime", "path"]), ["?.lua", "?/init.lua"]);
    assert!(texts_at(&settings, &["Lua", "workspace", "library"]).is_empty());
}

#[test]
fn combines_configured_paths_with_lua_path_resolved_from_the_workspace() {
    let config = LuaConfig {
        path: None,
        runtime_version: Some("LuaJIT".to_owned()),
        runtime_path: vec!["scripts/?.lua".to_owned()],
        workspace_library: vec!["types".to_owned(), "/opt/types".to_owned()],
        cheat_engine_api: Default::default(),
    };
    let settings = lua_configuration(Some("./?.lua;lib/?.lua;/usr/share/lua/?.lua"), &config, Some("/work"), None).unwrap();
    assert_eq!(
        texts_at(&settings, &["Lua", "runtime", "path"]),
        ["scripts/?.lua", "./?.lua", "lib/?.lua", "/usr/share/lua/?.lua"]
    );
    assert_eq!(
        texts_at(&settings, &["Lua", "workspace", "library"]),
        ["/work/types", "/opt/types", "/work/.", "/work/lib", "/usr/share/lua"]
    );
    assert_eq!(as_text(member(member(member(&settings, "Lua"), "runtime"), "version")), "LuaJIT");

    let only_version = LuaConfig { runtime_version: Some("Lua 5.4".to_owned()), ..LuaConfig::default() };
    assert!(lua_configuration(None, &only_version, None, None).is_some());
}

#[test]
fn chooses_the_lua_server_command() {
    let configured = LuaConfig { path: Some("/opt/luals/bin/lua-language-server".to_owned()), ..LuaConfig::default() };
    assert_eq!(lua_server_command(Some("/custom/luals"), &configured), "/custom/luals");
    assert_eq!(lua_server_command(None, &configured), "/opt/luals/bin/lua-language-server");
    assert_eq!(lua_server_command(None, &LuaConfig::default()), "lua-language-server");
}

#[test]
fn translating_a_request_and_its_response_gives_the_value_back() {
    let virtual_uri = "file:///project/player.cea.lua";
    let source_uri = "file:///project/player.cea";
    let documents = proxy_documents(virtual_uri, source_uri);
    let value = object(vec![
        ("textDocument", object(vec![("uri", text(source_uri))])),
        ("changes", object(vec![(source_uri, JsonValue::Array(vec![text(source_uri)]))])),
        ("targetUri", text("file:///project/other.cea")),
    ]);
    let request = translate_request_uris(&value, source_uri, virtual_uri);
    assert_eq!(as_text(member(member(&request, "textDocument"), "uri")), virtual_uri);
    let back = translate_response_uris(&request, &documents);
    assert_eq!(as_text(member(member(&back, "textDocument"), "uri")), source_uri);
    match member(member(&back, "changes"), source_uri) {
        JsonValue::Array(items) => assert_eq!(as_text(&items[0]), source_uri),
        _ => panic!("changes are not an array"),
    }
    assert_eq!(as_text(member(&back, "targetUri")), "file:///project/other.cea");
}

#[test]
fn merges_the_installed_api_declarations_when_enabled() {
    let api = "/home/u/.cache/cea-language-server/cheat-engine-api/7.7-0123456789abcdef";
    let settings = lua_configuration(None, &LuaConfig::default(), Some("/work"), Some(api)).unwrap();
    assert_eq!(texts_at(&settings, &["Lua", "workspace", "library"]), [api]);
    let config = LuaConfig {
        workspace_library: vec!["types".to_owned()],
        ..LuaConfig::default()
    };
    let settings = lua_configuration(Some("lib/?.lua"), &config, Some("/work"), Some(api)).unwrap();
    assert_eq!(
        texts_at(&settings, &["Lua", "workspace", "library"]),
        ["/work/types", "/work/lib", api]
    );
    let mut disabled = LuaConfig::default();
    disabled.cheat_engine_api.enabled = false;
    assert!(lua_configuration(None, &disabled, Some("/work"), Some(api)).is_none());
}

#[test]
fn maps_a_parsed_virtual_uri_to_its_script() {
    let documents = proxy_documents("file:///project/player.cea.lua", "file:///project/player.cea");
    assert_eq!(
        source_of(Some("file:///project/player.cea.lua"), "FILE:///project/./player.cea.lua", &documents),
        "file:///project/player.cea"
    );
    assert_eq!(source_of(Some("file:///other.lua"), "file:///other.lua", &documents), "file:///other.lua");
    assert_eq!(source_of(None, "not a url", &documents), "not a url");
}
