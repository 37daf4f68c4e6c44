use cea_language_server::diagnostics::DiagnosticStore;
use cea_language_server::keyed::UriMap;
use cea_language_server::supervisor::{restart_warning, ProcessExit, StartOutcome, Supervisor};
use cea_language_server::workspace_folders::{folder_name, update_workspace_folders};
use cea_language_server::workspace_index::normalize;
use cea_language_server::lua_scan::lua_address_arguments;

fn folder(uri: &str, name: &str) -> (String, String) {
    (uri.to_owned(), name.to_owned())
}

#[test]
fn updates_workspace_folders_without_duplicates() {
    let folders = vec![folder("file:///a", "a"), folder("file:///b", "b")];
    let removed = vec![folder("file:///a", "a")];
    let added = vec![
        folder("file:///b", "b again"),
        folder("file:///c", "c"),
        folder("file:///c", "c again"),
    ];
    let updated = update_workspace_folders(folders, &removed, added);
    assert_eq!(updated, vec![folder("file:///b", "b"), folder("file:///c", "c")]);
}

#[test]
fn a_removed_folder_can_be_added_back() {
    let folders = vec![folder("file:///a", "a")];
    let removed = vec![folder("file:///a", "a")];
    let added = vec![folder("file:///a", "renamed")];
    assert_eq!(
        update_workspace_folders(folders, &removed, added),
        vec![folder("file:///a", "renamed")]
    );
}

#[test]
fn names_a_folder_after_its_last_segment() {
    assert_eq!(folder_name(Some("project")), "project");
    assert_eq!(folder_name(Some("")), "CEA workspace");
    assert_eq!(folder_name(None), "CEA workspace");
}

#[test]
fn reports_the_first_start_and_logs_restarts() {
    let mut supervisor = Supervisor::new();
    match supervisor.start_failed("no such file".to_owned()) {
        StartOutcome::ReportFailure(error) => assert_eq!(error, "no such file"),
        _ => panic!("the first failure is reported"),
    }
    assert!(matches!(supervisor.started(0), StartOutcome::ReportStarted));
    match supervisor.start_failed("no such file".to_owned()) {
        StartOutcome::Retry(message) => {
            assert_eq!(message, "failed to restart LuaLS: no such file; retrying")
        }
        _ => panic!("later failures are retried"),
    }
    match supervisor.started(3) {
        StartOutcome::LogRestart(message) => assert_eq!(
            message,
            "LuaLS restarted and resynchronized 3 open virtual documents"
        ),
        _ => panic!("later starts are logged"),
    }
}

#[test]
fn explains_each_restart() {
    assert_eq!(
        restart_warning("LuaLS stdout closed unexpectedly", ProcessExit::Exited("exit status: 1".to_owned())),
        "LuaLS stdout closed unexpectedly; process exited with exit status: 1; restarting LuaLS"
    );
    assert_eq!(
        restart_warning("boom", ProcessExit::WaitFailed("interrupted".to_owned())),
        "boom; failed to wait for process: interrupted; restarting LuaLS"
    );
    assert_eq!(
        restart_warning("boom", ProcessExit::Killed),
        "boom; process did not exit after 2s and was killed; restarting LuaLS"
    );
}

#[test]
fn publishes_cea_then_lua_diagnostics_per_document() {
    let mut store: DiagnosticStore<&str> = DiagnosticStore::new();
    store.set_lua("file:///a.cea".to_owned(), vec!["lua"]);
    store.set_cea("file:///a.cea".to_owned(), vec!["cea 1", "cea 2"]);
    let (cea, lua) = store.published("file:///a.cea");
    assert_eq!(cea.unwrap(), &vec!["cea 1", "cea 2"]);
    assert_eq!(lua.unwrap(), &vec!["lua"]);

    store.set_cea("file:///a.cea".to_owned(), vec!["cea 3"]);
    assert_eq!(store.published("file:///a.cea").0.unwrap(), &vec!["cea 3"]);
    let (cea, lua) = store.published("file:///b.cea");
    assert!(cea.is_none() && lua.is_none());

    store.clear("file:///a.cea");
    let (cea, lua) = store.published("file:///a.cea");
    assert!(cea.is_none() && lua.is_none());
}

#[test]
fn keyed_map_reads_back_what_was_written() {
    let mut map: UriMap<u32> = UriMap::new();
    map.insert("a".to_owned(), 1);
    map.insert("b".to_owned(), 2);
    map.insert("a".to_owned(), 3);
    assert_eq!(map.len(), 2);
    assert_eq!(map.get("a"), Some(&3));
    assert_eq!(map.get("b"), Some(&2));
    assert!(map.contains_key("b"));
    assert_eq!(map.remove("b"), Some(2));
    assert_eq!(map.remove("b"), None);
    assert!(!map.contains_key("b"));
    assert_eq!(map.entry(0), (&"a".to_owned(), &3));
    assert!(map.keys_distinct());
}

#[test]
fn normalizes_symbol_names_by_ascii_case() {
    assert_eq!(normalize("MyLabel_1"), "mylabel_1");
    assert_eq!(normalize("ÄBC"), "Äbc");
    assert_eq!(normalize(""), "");
}

#[test]
fn reports_only_well_formed_address_names() {
    let source = b"getAddress('a') x.getAddress('no') getAddressSafe ( \"b\\\"c\" ) getAddress(\"\") getAddress(\"d\")";
    let found = lua_address_arguments(source);
    assert_eq!(found, vec![(12, 13), (88, 89)]);
    for (start, end) in found {
        assert_eq!(source[start - 1], source[end]);
        assert!(!source[start..end].contains(&b'\\'));
    }
}
