use cea_language_server::json::JsonValue;
use cea_language_server::keyed::UriMap;
use cea_language_server::lua_protocol::{
    cancel_request_message, classify_header, did_change_message, did_close_message,
    did_open_message, frame_header, initialize_message, initialize_outcome, lua_diagnostics_for,
    reply_outcome, request_in_lua, stream_failure,
    set_virtual_uri, unwrap_completion_data, wrap_completion_data, HeaderLine, ProxyDocument,
    ProxyDocuments,
};
use cea_language_server::text::{Position, Range};

fn text(s: &str) -> JsonValue {
    JsonValue::Text(s.to_owned())
}

fn object(members: Vec<(&str, JsonValue)>) -> JsonValue {
    JsonValue::Object(members.into_iter().map(|(k, v)| (k.to_owned(), v)).collect())
}

fn member<'a>(value: &'a JsonValue, key: &str) -> &'a JsonValue {
    match value {
        JsonValue::Object(members) => &members.iter().find(|(k, _)| k == key).unwrap().1,
        _ => panic!("not an object"),
    }
}

fn as_text(value: &JsonValue) -> &str {
    match value {
        JsonValue::Text(s) => s.as_str(),
        _ => panic!("not a string"),
    }
}

fn as_number(value: &JsonValue) -> &str {
    match value {
        JsonValue::Number(s) => s.as_str(),
        _ => panic!("not a number"),
    }
}

fn items(value: &JsonValue) -> &[JsonValue] {
    match value {
        JsonValue::Array(items) => items,
        _ => panic!("not an array"),
    }
}

fn range(start: (u32, u32), end: (u32, u32)) -> Range {
    Range::new(Position::new(start.0, start.1), Position::new(end.0, end.1))
}

fn document(ranges: Vec<Range>) -> ProxyDocument {
    ProxyDocument {
        source_uri: "file:///project/player.cea".to_owned(),
        version: 3,
        source: String::new(),
        ranges,
    }
}

#[test]
fn initializes_lua_ls_with_every_workspace_folder() {
    let folders = vec![
        ("file:///project/one".to_owned(), "one".to_owned()),
        ("file:///project/two".to_owned(), "two".to_owned()),
    ];

    let message = initialize_message(&folders);

    let params = member(&message, "params");
    assert_eq!(as_text(member(params, "rootUri")), "file:///project/one");
    let listed = items(member(params, "workspaceFolders"));
    assert_eq!(listed.len(), 2);
    for (listed, (uri, name)) in listed.iter().zip(&folders) {
        assert_eq!(as_text(member(listed, "uri")), uri);
        assert_eq!(as_text(member(listed, "name")), name);
    }
    assert!(matches!(
        member(member(member(params, "capabilities"), "workspace"), "configuration"),
        JsonValue::Bool(true)
    ));
    assert_eq!(as_text(member(&message, "method")), "initialize");
    assert_eq!(as_number(member(&message, "id")), "1");
}

#[test]
fn initializes_without_a_root_when_there_are_no_folders() {
    let message = initialize_message(&Vec::new());
    let params = member(&message, "params");
    assert!(matches!(member(params, "rootUri"), JsonValue::Null));
    assert!(matches!(member(params, "processId"), JsonValue::Null));
    assert!(items(member(params, "workspaceFolders")).is_empty());
}

#[test]
fn builds_document_notifications() {
    let open = did_open_message("file:///a.cea", -7, "print(1)");
    assert_eq!(as_text(member(&open, "jsonrpc")), "2.0");
    assert_eq!(as_text(member(&open, "method")), "textDocument/didOpen");
    let document = member(member(&open, "params"), "textDocument");
    assert_eq!(as_text(member(document, "uri")), "file:///a.cea");
    assert_eq!(as_text(member(document, "languageId")), "lua");
    assert_eq!(as_number(member(document, "version")), "-7");
    assert_eq!(as_text(member(document, "text")), "print(1)");

    let change = did_change_message("file:///a.cea", 8, "print(2)");
    assert_eq!(as_text(member(&change, "method")), "textDocument/didChange");
    let params = member(&change, "params");
    assert_eq!(as_number(member(member(params, "textDocument"), "version")), "8");
    let changes = items(member(params, "contentChanges"));
    assert_eq!(changes.len(), 1);
    assert_eq!(as_text(member(&changes[0], "text")), "print(2)");

    let close = did_close_message("file:///a.cea");
    assert_eq!(as_text(member(&close, "method")), "textDocument/didClose");
    assert_eq!(
        as_text(member(member(member(&close, "params"), "textDocument"), "uri")),
        "file:///a.cea"
    );

    let cancel = cancel_request_message(42);
    assert_eq!(as_text(member(&cancel, "method")), "$/cancelRequest");
    assert_eq!(as_number(member(member(&cancel, "params"), "id")), "42");
}

#[test]
fn frames_and_reads_message_headers() {
    assert_eq!(frame_header(17), "Content-Length: 17\r\n\r\n");
    assert_eq!(frame_header(0), "Content-Length: 0\r\n\r\n");
    assert_eq!(classify_header("\r\n"), HeaderLine::End);
    assert_eq!(
        classify_header("Content-Length: 17\r\n"),
        HeaderLine::ContentLength(Some(17))
    );
    assert_eq!(
        classify_header("Content-Length: abc\r\n"),
        HeaderLine::ContentLength(None)
    );
    assert_eq!(
        classify_header("Content-Type: application/vscode-jsonrpc\r\n"),
        HeaderLine::Other
    );
    assert_eq!(
        classify_header("Content-Length:  +5 \r\n"),
        HeaderLine::ContentLength(Some(5))
    );
    assert_eq!(classify_header("\n"), HeaderLine::Other);
}

#[test]
fn points_requests_at_the_virtual_document() {
    let params = object(vec![
        ("textDocument", object(vec![("uri", text("file:///a.cea?x#y"))])),
        ("position", object(vec![])),
    ]);
    let pointed = set_virtual_uri(params, "file:///a.cea");
    assert_eq!(
        as_text(member(member(&pointed, "textDocument"), "uri")),
        "file:///a.cea"
    );

    let without_uri = set_virtual_uri(object(vec![("textDocument", object(vec![]))]), "file:///a.cea");
    match member(&without_uri, "textDocument") {
        JsonValue::Object(members) => assert!(members.is_empty()),
        _ => panic!("not an object"),
    }
}

#[test]
fn wraps_and_unwraps_completion_data() {
    let wrapped = wrap_completion_data("file:///a.cea", Some(text("lua")));
    assert_eq!(as_text(member(&wrapped, "ceaSourceUri")), "file:///a.cea");
    let (uri, data) = unwrap_completion_data(&wrapped);
    assert_eq!(uri.as_deref(), Some("file:///a.cea"));
    assert_eq!(as_text(&data.unwrap()), "lua");

    let wrapped = wrap_completion_data("file:///a.cea", None);
    assert!(matches!(member(&wrapped, "luaData"), JsonValue::Null));
    let (uri, data) = unwrap_completion_data(&wrapped);
    assert_eq!(uri.as_deref(), Some("file:///a.cea"));
    assert!(data.is_none());

    let (uri, data) = unwrap_completion_data(&text("plain"));
    assert!(uri.is_none());
    assert!(data.is_none());
}

#[test]
fn forwards_requests_only_inside_lua_ranges() {
    let document = document(vec![range((2, 0), (4, 0))]);
    assert!(request_in_lua(&document, Some(Position::new(3, 5))));
    assert!(request_in_lua(&document, Some(Position::new(2, 0))));
    assert!(!request_in_lua(&document, Some(Position::new(4, 0))));
    assert!(!request_in_lua(&document, Some(Position::new(0, 0))));
    assert!(request_in_lua(&document, None));
}

#[test]
fn publishes_lua_diagnostics_for_known_virtual_documents() {
    let mut documents: ProxyDocuments = UriMap::new();
    documents.insert(
        "file:///project/player.cea".to_owned(),
        document(vec![range((2, 0), (4, 0))]),
    );
    let diagnostics = vec![
        (range((3, 1), (3, 4)), "inside"),
        (range((0, 1), (0, 4)), "outside"),
    ];
    let (source_uri, kept) =
        lua_diagnostics_for(&documents, "file:///project/player.cea", diagnostics).unwrap();
    assert_eq!(source_uri, "file:///project/player.cea");
    assert_eq!(kept.len(), 1);
    assert_eq!(kept[0].1, "inside");
    assert!(lua_diagnostics_for(&documents, "file:///other.cea", vec![(range((3, 1), (3, 4)), 1)]).is_none());
}

#[test]
fn hands_replies_to_the_waiting_callers() {
    match reply_outcome(Some("{\"code\":-32601}"), Some(text("ignored"))) {
        Err(message) => assert_eq!(message, "LuaLS request failed: {\"code\":-32601}"),
        Ok(_) => panic!("an error reply fails the request"),
    }
    assert!(matches!(reply_outcome(None, Some(text("done"))), Ok(JsonValue::Text(t)) if t == "done"));
    assert!(matches!(reply_outcome(None, None), Ok(JsonValue::Null)));
    assert_eq!(
        initialize_outcome(Some("\"no\"")).unwrap_err(),
        "LuaLS initialization failed: \"no\""
    );
    assert!(initialize_outcome(None).is_ok());
    assert_eq!(stream_failure(None), "LuaLS stdout closed unexpectedly");
    assert_eq!(stream_failure(Some("broken pipe")), "LuaLS protocol read error: broken pipe");
}
