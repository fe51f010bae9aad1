use vstd::prelude::*;
use vstd::string::StringExecFns;

verus! {

/// A zero-based `(line, character)` position as the editor client counts it.
#[derive(Clone, Copy, Debug, PartialEq, Eq, Structural)]
pub struct Position {
    pub line: u32,
    pub character: u32,
}

/// A span between two positions.
#[derive(Clone, Copy, Debug, PartialEq, Eq, Structural)]
pub struct Range {
    pub start: Position,
    pub end: Position,
}

#[derive(Clone, Copy, Debug, PartialEq, Eq, Structural)]
pub enum Severity {
    Error,
    Warning,
    Information,
}

/// A message about a span of a document.
#[derive(Debug, PartialEq, Eq)]
pub struct Diagnostic {
    pub range: Range,
    pub severity: Severity,
    pub code: Option<i32>,
    pub source: String,
    pub message: String,
}

/// The contents of a diagnostic.
pub struct DiagnosticView {
    pub range: Range,
    pub severity: Severity,
    pub code: Option<i32>,
    pub source: Seq<char>,
    pub message: Seq<char>,
}

impl View for Diagnostic {
    type V = DiagnosticView;

    open spec fn view(&self) -> DiagnosticView {
        DiagnosticView {
            range: self.range,
            severity: self.severity,
            code: self.code,
            source: self.source@,
            message: self.message@,
        }
    }
}

pub open spec fn views(ds: Seq<Diagnostic>) -> Seq<DiagnosticView> {
    ds.map_values(|d: Diagnostic| d@)
}

pub proof fn lemma_views_push(s: Seq<Diagnostic>, d: Diagnostic)
    ensures
        views(s.push(d)) == views(s).push(d@),
{
    assert(views(s.push(d)) =~= views(s).push(d@));
}

impl Diagnostic {
    /// A diagnostic with the same contents.
    pub fn duplicate(&self) -> (r: Diagnostic)
        ensures
            r@ == self@,
    {
        Diagnostic {
            range: self.range,
            severity: self.severity,
            code: self.code,
            source: self.source.clone(),
            message: self.message.clone(),
        }
    }
}

/// Copies of a list of diagnostics, in order.
pub fn duplicate_all(ds: &Vec<Diagnostic>) -> (r: Vec<Diagnostic>)
    ensures
        views(r@) == views(ds@),
{
    let mut out: Vec<Diagnostic> = Vec::new();
    let mut i: usize = 0;
    while i < ds.len()
        invariant
            i <= ds@.len(),
            views(out@) == views(ds@.subrange(0, i as int)),
        decreases ds@.len() - i,
    {
        let d = ds[i].duplicate();
        proof {
            lemma_views_push(out@, d);
            assert(ds@.subrange(0, i + 1) =~= ds@.subrange(0, i as int).push(ds@[i as int]));
            lemma_views_push(ds@.subrange(0, i as int), ds@[i as int]);
        }
        out.push(d);
        i = i + 1;
    }
    assert(ds@.subrange(0, i as int) =~= ds@);
    out
}

/// Appends copies of `extra` to `out`.
pub fn extend_with(out: &mut Vec<Diagnostic>, extra: &Vec<Diagnostic>)
    ensures
        views(final(out)@) == views(old(out)@) + views(extra@),
{
    let mut i: usize = 0;
    while i < extra.len()
        invariant
            i <= extra@.len(),
            views(out@) == views(old(out)@) + views(extra@.subrange(0, i as int)),
        decreases extra@.len() - i,
    {
        let d = extra[i].duplicate();
        proof {
            lemma_views_push(out@, d);
            assert(extra@.subrange(0, i + 1) =~= extra@.subrange(0, i as int).push(extra@[i as int]));
            lemma_views_push(extra@.subrange(0, i as int), extra@[i as int]);
        }
        out.push(d);
        i = i + 1;
        assert(views(out@) =~= views(old(out)@) + views(extra@.subrange(0, i as int)));
    }
    assert(extra@.subrange(0, i as int) =~= extra@);
}

/// The message of a syntax diagnostic with the given detail.
pub open spec fn syntax_message(detail: Seq<char>) -> Seq<char> {
    "Syntax error: '"@ + detail + "'"@
}

/// An error-level diagnostic of the parser over `range`.
pub fn create_syntax_diagnostic(range: Range, msg: String) -> (r: Diagnostic)
    ensures
        r@ == (DiagnosticView {
            range,
            severity: Severity::Error,
            code: None,
            source: "tree-sitter-ccsc"@,
            message: syntax_message(msg@),
        }),
{
    let mut message = String::from_str("Syntax error: '");
    message.append(msg.as_str());
    message.append("'");
    Diagnostic {
        range,
        severity: Severity::Error,
        code: None,
        source: String::from_str("tree-sitter-ccsc"),
        message,
    }
}

/// The warning published for a document that is not analysed.
pub open spec fn ignored_view() -> DiagnosticView {
    DiagnosticView {
        range: Range { start: Position { line: 0, character: 0 }, end: Position { line: 0, character: 0 } },
        severity: Severity::Warning,
        code: None,
        source: "ls-ccsc"@,
        message: "Document is ignored"@,
    }
}

/// The response for a document that is not analysed, published under `uri`.
pub open spec fn is_ignore_response(r: CCSCResponse, uri: String) -> bool {
    &&& r.logs is None
    &&& r.uri_diagnostics matches Some((u, ds)) && u == uri && ds@.len() == 1 && ds@[0]@ == ignored_view()
}

/// The single warning published for a document that is not analysed.
pub fn ignored_document_diagnostic() -> (r: Diagnostic)
    ensures
        r@ == ignored_view(),
{
    Diagnostic {
        range: Range { start: Position { line: 0, character: 0 }, end: Position { line: 0, character: 0 } },
        severity: Severity::Warning,
        code: None,
        source: String::from_str("ls-ccsc"),
        message: String::from_str("Document is ignored"),
    }
}

/// Logs and diagnostics for one document that a handler hands back to the
/// client.
pub struct CCSCResponse {
    pub logs: Option<Vec<String>>,
    pub uri_diagnostics: Option<(String, Vec<Diagnostic>)>,
}

impl CCSCResponse {
    pub fn new(logs: Option<Vec<String>>, uri_diagnostics: Option<(String, Vec<Diagnostic>)>) -> (r: CCSCResponse)
        ensures
            r.logs == logs,
            r.uri_diagnostics == uri_diagnostics,
    {
        CCSCResponse { logs, uri_diagnostics }
    }

    pub fn from_diagnostics(uri: String, diagnostics: Vec<Diagnostic>) -> (r: CCSCResponse)
        ensures
            r.logs is None,
            r.uri_diagnostics == Some((uri, diagnostics)),
    {
        CCSCResponse::new(None, Some((uri, diagnostics)))
    }

    pub fn from_logs(logs: Vec<String>) -> (r: CCSCResponse)
        ensures
            r.logs == Some(logs),
            r.uri_diagnostics is None,
    {
        CCSCResponse::new(Some(logs), None)
    }

    /// The response for a document that is not analysed: the single
    /// "Document is ignored" warning.
    pub fn ignore_file(uri: String) -> (r: CCSCResponse)
        ensures
            is_ignore_response(r, uri),
    {
        let d = ignored_document_diagnostic();
        let mut ds: Vec<Diagnostic> = Vec::new();
        ds.push(d);
        CCSCResponse::from_diagnostics(uri, ds)
    }
}

} // verus!
