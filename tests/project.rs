use ls_ccsc::diagnostic::{CCSCResponse, Diagnostic, Position, Range, Severity};
use ls_ccsc::index::{index_plan, BackendInner, TextDocumentType};
use ls_ccsc::mcp::{MPLABFile, MPLABProjectConfig, McpError};
use ls_ccsc::paths::is_source_file;

const MCP: &str = "[HEADER]\nmagic_cookie={66E99B07-E706-4689-9E80-9B2582898A13}\nfile_version=1.0\ndevice=PIC18F4550\n[PATH_INFO]\ndir_src=\n[SUITE_INFO]\nsuite_guid={5B7D72DD-9861-47BD-9F60-2BE967BF8416}\n[TOOL_SETTINGS]\nTS{DD2213A8-6310-47B1-8376-9430CDFC013F}=\n[FILE_INFO]\nfile_000=main.c\nfile_001=util.h\nfile_002=notes.txt\nfile_003=build.c\n[OTHER_FILES]\nfile_000=yes\nfile_001=no\nfile_002=no\nfile_003=no\n[GENERATED_FILES]\nfile_003=$(ProjectDir)build.c\n";

fn c_parser() -> tree_sitter::Parser {
    let mut parser = tree_sitter::Parser::new();
    parser.set_language(tree_sitter_c::language()).unwrap();
    parser
}

fn config() -> MPLABProjectConfig {
    let ini = ini::Ini::load_from_str_noescape(MCP).unwrap();
    MPLABProjectConfig::from_ini(&ini).unwrap()
}

#[test]
fn mcp_is_read() {
    let c = config();
    assert_eq!(c.file_version, "1.0");
    assert_eq!(c.device, "PIC18F4550");
    assert_eq!(c.suite_guid, "{5B7D72DD-9861-47BD-9F60-2BE967BF8416}");
    assert_eq!(c.tool_settings.len(), 1);
    let keys: Vec<&str> = c.files.iter().map(|(k, _)| k.as_str()).collect();
    assert_eq!(keys, vec!["file_000", "file_001", "file_002", "file_003"]);
    let f = |k: &str| &c.files.iter().find(|(key, _)| key == k).unwrap().1;
    assert!(f("file_000").is_other && !f("file_000").is_generated);
    assert!(!f("file_001").is_other);
    assert!(f("file_003").is_generated);
    assert_eq!(f("file_001").path, "util.h");
    assert_eq!(f("file_001").subfolder, ".");
}

#[test]
fn mcp_errors() {
    let missing = ini::Ini::load_from_str_noescape("[HEADER]\nfile_version=1\n").unwrap();
    assert_eq!(MPLABProjectConfig::from_ini(&missing).err(), Some(McpError::MissingField("device".to_string())));
    let no_header = ini::Ini::load_from_str_noescape("[SUITE_INFO]\nsuite_guid=x\n").unwrap();
    assert_eq!(MPLABProjectConfig::from_ini(&no_header).err(), Some(McpError::MissingSection("HEADER".to_string())));
    let unknown = MCP.replace("[OTHER_FILES]\n", "[OTHER_FILES]\nfile_009=yes\n");
    let unknown = ini::Ini::load_from_str_noescape(&unknown).unwrap();
    assert_eq!(MPLABProjectConfig::from_ini(&unknown).err(), Some(McpError::UnknownFileKey("file_009".to_string())));
    assert!(MPLABProjectConfig::from_ini_to_lsp_result(&unknown).is_err());
}

#[test]
fn source_extensions() {
    assert!(is_source_file("/p/main.c"));
    assert!(is_source_file("/p/main.cpp"));
    assert!(is_source_file("/p/main.h"));
    assert!(!is_source_file("/p/main.C"));
    assert!(!is_source_file("/p/notes.txt"));
    assert!(!is_source_file("/p/Makefile"));
}

#[test]
fn new_project_file() {
    let f = MPLABFile::new("a.c".to_string());
    assert_eq!(f.path, "a.c");
    assert_eq!(f.subfolder, ".");
    assert!(!f.is_other && !f.is_generated);
}

fn indexed() -> BackendInner {
    let c = config();
    let plan = index_plan(&c, "/project");
    assert_eq!(plan[0], ("/project/main.c".to_string(), true));
    let mut parser = c_parser();
    let files: Vec<(String, String, bool)> =
        plan.into_iter().map(|(p, ignored)| (p, "int a;\n".to_string(), ignored)).collect();
    let docs = TextDocumentType::index_from_mcp(files, &mut parser);
    let kinds: Vec<bool> = docs.iter().map(|(_, t)| matches!(t, TextDocumentType::Source(_))).collect();
    assert_eq!(kinds, vec![false, true, false, false]);
    let mut inner = BackendInner::new();
    inner.set_root_path("/project".to_string());
    inner.set_mcp(c);
    inner.insert_docs(docs);
    inner
}

#[test]
fn ignored_document() {
    let mut inner = indexed();
    assert!(matches!(inner.get_doc("/project/main.c"), Ok(TextDocumentType::Ignored)));
    let CCSCResponse { logs, uri_diagnostics } =
        inner.did_open("/project/main.c".to_string(), "file:///project/main.c".to_string()).unwrap();
    assert!(logs.is_none());
    let (uri, diags) = uri_diagnostics.unwrap();
    assert_eq!(uri, "file:///project/main.c");
    assert_eq!(
        diags,
        vec![Diagnostic {
            range: Range { start: Position { line: 0, character: 0 }, end: Position { line: 0, character: 0 } },
            severity: Severity::Warning,
            code: None,
            source: "ls-ccsc".to_string(),
            message: "Document is ignored".to_string(),
        }]
    );
}

#[test]
fn unknown_path_becomes_ignored_on_change() {
    let mut inner = indexed();
    let mut parser = c_parser();
    assert!(inner.get_doc("/elsewhere/x.c").is_err());
    let r = inner.did_change("/elsewhere/x.c".to_string(), "file:///elsewhere/x.c".to_string(), vec![], &mut parser).unwrap();
    assert_eq!(r.uri_diagnostics.unwrap().1[0].message, "Document is ignored");
    assert!(matches!(inner.get_doc("/elsewhere/x.c"), Ok(TextDocumentType::Ignored)));
}

fn diag(msg: &str) -> Diagnostic {
    Diagnostic {
        range: Range { start: Position { line: 0, character: 0 }, end: Position { line: 0, character: 1 } },
        severity: Severity::Error,
        code: Some(1),
        source: "ccsc-compiler".to_string(),
        message: msg.to_string(),
    }
}

fn compiler_messages(inner: &BackendInner, path: &str) -> Vec<String> {
    match inner.get_doc(path).unwrap() {
        TextDocumentType::Source(d) => d.get_compiler_diagnostics().iter().map(|d| d.message.clone()).collect(),
        TextDocumentType::Ignored => panic!("not a source"),
    }
}

#[test]
fn ingesting_twice_gives_the_same_diagnostics() {
    let mut inner = indexed();
    let batch = || vec![
        ("/project/util.h".to_string(), vec![diag("one"), diag("two")]),
        ("/tmp/other.c".to_string(), vec![diag("three")]),
    ];
    inner.insert_compiler_diagnostics(batch());
    let first = compiler_messages(&inner, "/project/util.h");
    assert_eq!(first, vec!["one", "two"]);
    inner.insert_compiler_diagnostics(batch());
    assert_eq!(compiler_messages(&inner, "/project/util.h"), first);
    assert!(matches!(inner.get_doc("/tmp/other.c"), Ok(TextDocumentType::Ignored)));

    inner.insert_compiler_diagnostics(vec![]);
    assert!(compiler_messages(&inner, "/project/util.h").is_empty());
}

#[test]
fn diagnostics_merge_syntax_then_compiler() {
    let mut inner = indexed();
    inner.insert_compiler_diagnostics(vec![("/project/util.h".to_string(), vec![diag("c")])]);
    let r = inner.did_open("/project/util.h".to_string(), "file:///project/util.h".to_string()).unwrap();
    let diags = r.uri_diagnostics.unwrap().1;
    assert_eq!(diags.last().unwrap().message, "c");
}

#[test]
fn clear_forgets_everything() {
    let mut inner = indexed();
    inner.clear();
    assert!(inner.get_root_path().is_err());
    assert!(inner.get_mcp().is_err());
    assert!(inner.get_doc("/project/util.h").is_err());
}

#[test]
fn subfolders_set_and_unknown_keys_passed_over() {
    let text = format!("{}[FILE_SUBFOLDERS]\nfile_001=headers\nfile_042=nowhere\n", MCP);
    let ini = ini::Ini::load_from_str_noescape(&text).unwrap();
    let c = MPLABProjectConfig::from_ini(&ini).unwrap();
    let f = |k: &str| &c.files.iter().find(|(key, _)| key == k).unwrap().1;
    assert_eq!(f("file_001").subfolder, "headers");
    assert_eq!(f("file_000").subfolder, ".");
    assert_eq!(c.files.len(), 4);
}

#[test]
fn later_document_of_a_path_wins() {
    let mut parser = c_parser();
    let src = TextDocumentType::create("/p/a.c".to_string(), "int a;\n".to_string(), false, &mut parser);
    let mut inner = BackendInner::new();
    inner.insert_docs(vec![("/p/a.c".to_string(), src), ("/p/a.c".to_string(), TextDocumentType::Ignored)]);
    assert!(matches!(inner.get_doc("/p/a.c"), Ok(TextDocumentType::Ignored)));
    let src = TextDocumentType::create("/p/a.c".to_string(), "int b;\n".to_string(), false, &mut parser);
    inner.insert_docs(vec![("/p/a.c".to_string(), src)]);
    match inner.get_doc("/p/a.c") {
        Ok(TextDocumentType::Source(d)) => assert_eq!(d.source.get_raw(), "int b;\n"),
        _ => panic!("expected a source"),
    }
}

#[test]
fn change_through_the_index() {
    let mut inner = indexed();
    let mut parser = c_parser();
    let changes = vec![ls_ccsc::document::ContentChange { range: None, text: "int x;\n".to_string() }];
    let r = inner.did_change("/project/util.h".to_string(), "file:///project/util.h".to_string(), changes, &mut parser).unwrap();
    assert_eq!(r.uri_diagnostics.unwrap().0, "file:///project/util.h");
    match inner.get_doc("/project/util.h") {
        Ok(TextDocumentType::Source(d)) => assert_eq!(d.source.get_raw(), "int x;\n"),
        _ => panic!("expected a source"),
    }
}

#[test]
fn change_returns_its_log() {
    let mut inner = indexed();
    let mut parser = c_parser();
    let changes = vec![ls_ccsc::document::ContentChange { range: None, text: "int y;\n".to_string() }];
    let r = inner.did_change("/project/util.h".to_string(), "file:///project/util.h".to_string(), changes, &mut parser).unwrap();
    let logs = r.logs.unwrap();
    assert_eq!(logs.len(), 1);
    assert!(logs[0].starts_with("int y;\n"));
}
