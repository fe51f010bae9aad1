use ls_ccsc::compiler_errors::{parse_error_line, parse_error_text};
use ls_ccsc::diagnostic::{Diagnostic, Position, Range, Severity};
use ls_ccsc::index::group_by_path;

#[test]
fn compiler_error_line() {
    let (path, d) = parse_error_line(">>> Error 42 \"/tmp/foo.c\" Line 5(3,8): undeclared identifier 'x'").unwrap();
    assert_eq!(path, "/tmp/foo.c");
    assert_eq!(
        d,
        Diagnostic {
            range: Range { start: Position { line: 4, character: 3 }, end: Position { line: 4, character: 8 } },
            severity: Severity::Error,
            code: Some(42),
            source: "ccsc-compiler".to_string(),
            message: "undeclared identifier 'x'".to_string(),
        }
    );
}

#[test]
fn severities_and_markers() {
    let (_, d) = parse_error_line("*** Warning 7 \"a.c\" Line 1(0,1): w").unwrap();
    assert_eq!(d.severity, Severity::Warning);
    let (_, d) = parse_error_line("--- Info 7 \"a.c\" Line 1(0,1): i").unwrap();
    assert_eq!(d.severity, Severity::Information);
    let (_, d) = parse_error_line(">>>\tFatal  7\t\"a.c\"  Line\t10(2,3): f").unwrap();
    assert_eq!(d.severity, Severity::Error);
    assert_eq!(d.range.start.line, 9);
}

#[test]
fn unmatched_lines_are_ignored() {
    assert!(parse_error_line("").is_none());
    assert!(parse_error_line("Error 42 \"a.c\" Line 5(3,8): x").is_none());
    assert!(parse_error_line(">>> Error x \"a.c\" Line 5(3,8): x").is_none());
    assert!(parse_error_line(">>> Error 42 \"a.c\" Line 5(3,8):x").is_none());
    assert!(parse_error_line(">>> Error 99999999999 \"a.c\" Line 5(3,8): x").is_none());
    assert!(parse_error_line(">>> Error 1 \"a.c\" Line 0(3,8): x").is_none());
}

#[test]
fn error_file_lines_and_grouping() {
    let text = ">>> Error 1 \"/a.c\" Line 2(0,1): one\r\nnoise\n*** Warning 2 \"/b.c\" Line 3(1,2): two\n>>> Error 3 \"/a.c\" Line 4(2,3): three\n";
    let entries = parse_error_text(text);
    assert_eq!(entries.len(), 3);
    assert_eq!(entries[0].1.message, "one");
    let groups = group_by_path(entries);
    assert_eq!(groups.len(), 2);
    let a = groups.iter().find(|(p, _)| p == "/a.c").unwrap();
    let msgs: Vec<&str> = a.1.iter().map(|d| d.message.as_str()).collect();
    assert_eq!(msgs, vec!["one", "three"]);
}
