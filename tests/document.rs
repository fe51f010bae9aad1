use ls_ccsc::diagnostic::{Position, Range, Severity};
use ls_ccsc::document::{ContentChange, TextDocument};
use ls_ccsc::error::LsError;
use ls_ccsc::position::Point;
use ls_ccsc::syntax::{hover_chain, join_strings, read_tree, syntax_diagnostics};

fn c_parser() -> tree_sitter::Parser {
    let mut parser = tree_sitter::Parser::new();
    parser.set_language(tree_sitter_c::language()).unwrap();
    parser
}

fn range(sl: u32, sc: u32, el: u32, ec: u32) -> Option<Range> {
    Some(Range {
        start: Position { line: sl, character: sc },
        end: Position { line: el, character: ec },
    })
}

#[test]
fn apply_change_and_reparse() {
    let mut parser = c_parser();
    let mut doc = TextDocument::new(
        "/project/add.c".to_string(),
        "\nint add(int a, int b) {\n\treturn a + b;\n}".to_string(),
        &mut parser,
    );
    let changes = vec![ContentChange { range: range(2, 14, 2, 14), text: "\n    ".to_string() }];
    doc.reparse_with_lsp(changes, &mut parser).unwrap();
    assert_eq!(doc.source.get_raw(), "\nint add(int a, int b) {\n\treturn a + b;\n    \n}");
    let root = read_tree(doc.syntax_tree.as_ref().unwrap());
    let (chain, _) = hover_chain(&root, Point::new(3, 2));
    let deepest = chain.rsplit('/').next().unwrap();
    assert_ne!(deepest, "ERROR");
    assert!(chain.starts_with("translation_unit"));
}

#[test]
fn whole_document_replace() {
    let mut parser = c_parser();
    let mut doc = TextDocument::new("/p/a.c".to_string(), "int a;\nint b;\nint c;\n".to_string(), &mut parser);
    doc.reparse_with_lsp(vec![ContentChange { range: None, text: "int x;\n".to_string() }], &mut parser).unwrap();
    assert_eq!(doc.source.get_raw(), "int x;\n");
    assert_eq!(doc.source.get_point_from_byte_idx(7).unwrap(), Point::new(1, 0));
}

#[test]
fn changes_apply_in_order() {
    let mut parser = c_parser();
    let mut doc = TextDocument::new("/p/a.c".to_string(), "int a;\n".to_string(), &mut parser);
    let changes = vec![
        ContentChange { range: range(0, 4, 0, 5), text: "bb".to_string() },
        ContentChange { range: range(0, 7, 0, 7), text: " int c;".to_string() },
    ];
    doc.reparse_with_lsp(changes, &mut parser).unwrap();
    assert_eq!(doc.source.get_raw(), "int bb; int c;\n");
    assert_eq!(doc.source.get_raw().len(), 7 + (2 - 1) + 7);
}

#[test]
fn empty_change_list_keeps_the_document() {
    let mut parser = c_parser();
    let mut doc = TextDocument::new("/p/a.c".to_string(), "int a;\n".to_string(), &mut parser);
    let before = doc.syntax_tree.as_ref().unwrap().root_node().to_sexp();
    assert_eq!(doc.reparse_with_lsp(vec![], &mut parser).unwrap(), "");
    assert_eq!(doc.source.get_raw(), "int a;\n");
    assert_eq!(doc.syntax_tree.as_ref().unwrap().root_node().to_sexp(), before);
}

#[test]
fn same_text_replace_keeps_the_document() {
    let mut parser = c_parser();
    let mut doc = TextDocument::new("/p/a.c".to_string(), "int a;\nint b(;\n".to_string(), &mut parser);
    let diags_before = doc.get_diagnostics().unwrap();
    doc.reparse_with_lsp(vec![ContentChange { range: range(1, 0, 1, 3), text: "int".to_string() }], &mut parser).unwrap();
    assert_eq!(doc.source.get_raw(), "int a;\nint b(;\n");
    assert_eq!(doc.get_diagnostics().unwrap(), diags_before);
}

#[test]
fn reversed_range_stops_the_batch() {
    let mut parser = c_parser();
    let mut doc = TextDocument::new("/p/a.c".to_string(), "int a;\n".to_string(), &mut parser);
    let changes = vec![
        ContentChange { range: range(0, 4, 0, 5), text: "b".to_string() },
        ContentChange { range: range(0, 5, 0, 1), text: "x".to_string() },
        ContentChange { range: range(0, 0, 0, 0), text: "y".to_string() },
    ];
    assert_eq!(doc.reparse_with_lsp(changes, &mut parser), Err(LsError::InvalidRange));
    assert_eq!(doc.source.get_raw(), "int b;\n");
}

#[test]
fn syntax_errors_are_reported() {
    let mut parser = c_parser();
    let doc = TextDocument::new("/p/a.c".to_string(), "int a = ;\n".to_string(), &mut parser);
    let diags = doc.get_syntax_errors().unwrap();
    assert!(!diags.is_empty());
    for d in &diags {
        assert_eq!(d.severity, Severity::Error);
        assert_eq!(d.source, "tree-sitter-ccsc");
        assert!(d.message.starts_with("Syntax error: '"));
        assert!(d.message.ends_with('\''));
    }
}

#[test]
fn clean_source_has_no_syntax_errors() {
    let mut parser = c_parser();
    let doc = TextDocument::new("/p/a.c".to_string(), "int main(void) { return 0; }\n".to_string(), &mut parser);
    let root = read_tree(doc.syntax_tree.as_ref().unwrap());
    assert!(syntax_diagnostics(&root, doc.source.get_raw()).is_empty());
}

#[test]
fn includes_resolve_against_the_document_directory() {
    let mut parser = c_parser();
    let doc = TextDocument::new(
        "/project/src/main.c".to_string(),
        "#include \"util.h\"\n#include <stdio.h>\n#include \"util.h\"\n#include \"lib/io.h\"\n".to_string(),
        &mut parser,
    );
    let mut files = doc.included_files.clone();
    files.sort();
    assert_eq!(files, vec!["/project/src/lib/io.h".to_string(), "/project/src/util.h".to_string()]);
}

#[test]
fn no_tree_means_no_syntax_tree_error() {
    let mut parser = tree_sitter::Parser::new();
    let mut doc = TextDocument::new("/p/a.c".to_string(), "int a;".to_string(), &mut parser);
    assert!(doc.syntax_tree.is_none());
    assert_eq!(doc.get_diagnostics(), Err(LsError::NoSyntaxTree));
    assert_eq!(
        doc.reparse_with_lsp(vec![ContentChange { range: None, text: "x".to_string() }], &mut parser),
        Err(LsError::NoSyntaxTree)
    );
    assert_eq!(doc.source.get_raw(), "int a;");
}

#[test]
fn join_with_separator() {
    let parts = vec!["a".to_string(), "b".to_string(), "c".to_string()];
    assert_eq!(join_strings(&parts, "/"), "a/b/c");
    assert_eq!(join_strings(&vec![], "\n"), "");
}

#[test]
fn hover_descends_through_spanning_children() {
    let mut parser = c_parser();
    let doc = TextDocument::new("/p/a.c".to_string(), "int a;\nint b;\n".to_string(), &mut parser);
    let root = read_tree(doc.syntax_tree.as_ref().unwrap());
    let (chain, range) = hover_chain(&root, Point::new(1, 4));
    assert!(chain.starts_with("translation_unit/declaration"));
    assert_eq!(range.start.line, 1);
    assert_eq!(chain.rsplit('/').next().unwrap(), "identifier");
}

#[test]
fn reparse_without_tree_fails_after_applying_the_change() {
    let mut parser = c_parser();
    let mut doc = TextDocument::new("/p/a.c".to_string(), "int a;\n".to_string(), &mut parser);
    let mut no_language = tree_sitter::Parser::new();
    let changes = vec![
        ContentChange { range: range(0, 4, 0, 5), text: "b".to_string() },
        ContentChange { range: range(0, 0, 0, 0), text: "x".to_string() },
    ];
    assert_eq!(doc.reparse_with_lsp(changes, &mut no_language), Err(LsError::NoSyntaxTree));
    assert_eq!(doc.source.get_raw(), "int b;\n");
    assert!(doc.syntax_tree.is_none());
}
