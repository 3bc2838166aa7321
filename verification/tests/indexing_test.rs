use callquery::indexing::{
    build_call_index, cache_is_usable, contains_call, keep_source_file, load_index,
    normalize_name, process_symbols, select_source_files, FetchDisposition, FileRecord,
    IndexerAction, IndexerState, RawSymbol, SymbolRecord,
};
use callquery::lang_server::LanguageServerLauncher;
use callquery::searcher::{CallEntry, FileSymbols};

fn names(list: &[&str]) -> Vec<String> {
    list.iter().map(|s| s.to_string()).collect()
}

#[test]
fn normalization_strips_leading_underscores() {
    assert_eq!(normalize_name("__collect_inotify_mark"), "collect_inotify_mark");
    assert_eq!(normalize_name("_x"), "x");
    assert_eq!(normalize_name("plain"), "plain");
    assert_eq!(normalize_name("mid_underscore"), "mid_underscore");
    assert_eq!(normalize_name("___"), "");
}

#[test]
fn discovery_keeps_only_function_symbols() {
    let raw = vec![
        RawSymbol { name: "_f".to_string(), is_function: true, start_line: 3, end_line: 9 },
        RawSymbol { name: "SOME_TYPE".to_string(), is_function: false, start_line: 1, end_line: 2 },
        RawSymbol { name: "g".to_string(), is_function: true, start_line: 10, end_line: 12 },
    ];
    let kept = process_symbols(&raw);
    assert_eq!(kept.len(), 2);
    assert_eq!(kept[0].name, "f");
    assert_eq!(kept[0].start_line, 3);
    assert_eq!(kept[0].end_line, 9);
    assert_eq!(kept[1].name, "g");
}

#[test]
fn call_heuristic_needs_name_and_parenthesis() {
    assert!(contains_call("  helper(1);", "helper"));
    assert!(contains_call("x = a_helper(1);", "helper"));
    assert!(!contains_call("  helper ;", "helper"));
    assert!(!contains_call("  help(1);", "helper"));
    assert!(!contains_call("", "helper"));
}

#[test]
fn call_index_records_forward_and_inverse_edges() {
    // `caller` spans lines 0..3; only line 1 and 2 are scanned
    let files = vec![FileRecord {
        path: "m.c".to_string(),
        lines: vec![
            "void caller(void) {".to_string(),
            "  callee();".to_string(),
            "}".to_string(),
            "void callee(void) {}".to_string(),
        ],
        symbols: vec![
            SymbolRecord { name: "caller".to_string(), start_line: 0, end_line: 2 },
            SymbolRecord { name: "callee".to_string(), start_line: 3, end_line: 3 },
        ],
    }];
    let (fwd, inv) = build_call_index(&files);
    assert_eq!(fwd.len(), 2);
    assert_eq!(fwd[0].key, "caller");
    assert_eq!(fwd[0].values, names(&["callee"]));
    assert_eq!(fwd[1].key, "callee");
    assert!(fwd[1].values.is_empty());
    assert_eq!(inv.len(), 1);
    assert_eq!(inv[0].key, "callee");
    assert_eq!(inv[0].values, names(&["caller"]));
}

#[test]
fn cache_reuse_needs_matching_counts() {
    let files = names(&["a.c", "b.c"]);
    let index = vec![
        FileSymbols { path: "a.c".to_string(), functions: names(&["f"]) },
        FileSymbols { path: "b.c".to_string(), functions: names(&["g"]) },
    ];
    let called = vec![
        CallEntry { key: "f".to_string(), values: names(&["g"]) },
        CallEntry { key: "g".to_string(), values: vec![] },
    ];
    let caller = vec![
        CallEntry { key: "g".to_string(), values: names(&["f"]) },
        CallEntry { key: "f".to_string(), values: vec![] },
    ];
    assert!(cache_is_usable(
        &Some(clone_files(&index)),
        &Some(clone_entries(&called)),
        &Some(clone_entries(&caller)),
        &files
    ));
    // one live file too many: stale
    let more = names(&["a.c", "b.c", "c.c"]);
    assert!(!cache_is_usable(
        &Some(clone_files(&index)),
        &Some(clone_entries(&called)),
        &Some(clone_entries(&caller)),
        &more
    ));
    // a missing cache file: stale
    assert!(!cache_is_usable(
        &None,
        &Some(clone_entries(&called)),
        &Some(clone_entries(&caller)),
        &files
    ));
    // presence and file count are the only checks: a project with a single
    // function, whose call maps hold one entry each, is still reused
    let one_file = names(&["only.c"]);
    let one_index = vec![FileSymbols { path: "only.c".to_string(), functions: names(&["solo"]) }];
    let one_called = vec![CallEntry { key: "solo".to_string(), values: vec![] }];
    let one_caller = vec![CallEntry { key: "solo".to_string(), values: vec![] }];
    assert!(cache_is_usable(
        &Some(clone_files(&one_index)),
        &Some(clone_entries(&one_called)),
        &Some(clone_entries(&one_caller)),
        &one_file
    ));
    assert!(load_index(Some(one_index), Some(one_called), Some(one_caller), &one_file).is_some());
    // reuse hands the persisted maps back verbatim
    let engine = load_index(Some(index), Some(called), Some(caller), &files).unwrap();
    assert_eq!(engine.index_map.len(), 2);
    assert_eq!(engine.index_map[0].path, "a.c");
    assert_eq!(engine.function_index[0].key, "f");
    assert_eq!(engine.inv_function_index[0].key, "g");
}

#[test]
fn indexer_restarts_every_batch_and_retries_once() {
    let mut st = IndexerState::start(12);
    // the first batch runs without a restart
    for file in 0..10usize {
        match st.plan() {
            IndexerAction::Fetch { file: f, restart_first } => {
                assert_eq!(f, file);
                assert!(!restart_first);
            },
            IndexerAction::Done => panic!("finished early"),
        }
        assert!(matches!(st.advance(true), FetchDisposition::Record));
    }
    // the batch is full: the next fetch restarts the backend first
    match st.plan() {
        IndexerAction::Fetch { file, restart_first } => {
            assert_eq!(file, 10);
            assert!(restart_first);
        },
        IndexerAction::Done => panic!("finished early"),
    }
    // a failure asks for a restart and one retry of the same file
    assert!(matches!(st.advance(false), FetchDisposition::RetryAfterRestart));
    match st.plan() {
        IndexerAction::Fetch { file, restart_first } => {
            assert_eq!(file, 10);
            assert!(restart_first);
        },
        IndexerAction::Done => panic!("finished early"),
    }
    // the second failure gives the file up as empty
    assert!(matches!(st.advance(false), FetchDisposition::GiveUpEmpty));
    match st.plan() {
        IndexerAction::Fetch { file, restart_first } => {
            assert_eq!(file, 11);
            assert!(!restart_first);
        },
        IndexerAction::Done => panic!("finished early"),
    }
    assert!(matches!(st.advance(true), FetchDisposition::Record));
    assert!(matches!(st.plan(), IndexerAction::Done));
}

#[test]
fn source_file_selection() {
    let paths = names(&["dir/fsnotify.c", "dir/readme.md", "deep/nested/zdtm.cpp", "noext"]);
    let all = select_source_files(&paths, &None);
    assert_eq!(all, names(&["dir/fsnotify.c", "deep/nested/zdtm.cpp"]));
    let indexed = select_source_files(&paths, &Some(names(&["fsnotify"])));
    assert_eq!(indexed, names(&["dir/fsnotify.c"]));
    assert!(keep_source_file("a/b/x.c", &Some(names(&["x"]))));
    assert!(!keep_source_file("a/b/x.c", &Some(names(&["y"]))));
}

#[test]
fn launcher_checks_languages() {
    let launcher = LanguageServerLauncher::new()
        .server("/usr/bin/clangd".to_string())
        .project("/tmp/project".to_string());
    assert_eq!(launcher.server_path, "/usr/bin/clangd");
    assert_eq!(launcher.project_path, "/tmp/project");
    assert!(launcher.languages_supported());
    let mut with_langs = LanguageServerLauncher::new();
    with_langs.languages = names(&["cc", "cpp"]);
    assert!(with_langs.languages_supported());
    with_langs.languages = names(&["rust"]);
    assert!(!with_langs.languages_supported());
}

fn clone_files(v: &[FileSymbols]) -> Vec<FileSymbols> {
    v.iter()
        .map(|f| FileSymbols { path: f.path.clone(), functions: f.functions.clone() })
        .collect()
}

fn clone_entries(v: &[CallEntry]) -> Vec<CallEntry> {
    v.iter()
        .map(|e| CallEntry { key: e.key.clone(), values: e.values.clone() })
        .collect()
}
