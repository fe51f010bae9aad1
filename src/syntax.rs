use vstd::prelude::*;
use vstd::string::{StringExecFns, StringSliceAdditionalSpecFns};
use vstd::utf8::{
    decode_utf8, encode_utf8_decode_utf8, encode_utf8_valid_utf8, is_char_boundary, valid_utf8_split,
};

use crate::diagnostic::{
    create_syntax_diagnostic, lemma_views_push, views, Diagnostic, DiagnosticView, Position, Range,
    Severity,
};
use crate::position::{bytes_of, Point};

verus! {

broadcast use vstd::seq::group_seq_axioms, vstd::std_specs::vec::group_vec_axioms;

#[verifier::external_type_specification]
#[verifier::external_body]
pub struct ExParser(tree_sitter::Parser);

#[verifier::external_type_specification]
#[verifier::external_body]
pub struct ExTree(tree_sitter::Tree);

#[verifier::external_type_specification]
#[verifier::external_body]
pub struct ExNode<'a>(tree_sitter::Node<'a>);

/// The description of one text edit that the incremental parser needs: the
/// edited bytes, and the same places as points, before and after the edit.
#[derive(Clone, Copy, Debug, PartialEq, Eq, Structural)]
pub struct InputEdit {
    pub start_byte: usize,
    pub old_end_byte: usize,
    pub new_end_byte: usize,
    pub start_position: Point,
    pub old_end_position: Point,
    pub new_end_position: Point,
}

/// Relies on `tree_sitter::Parser::parse`: parses `text`, reusing `old` where
/// it was edited to match; none where the parser has no language or gave up.
#[verifier::external_body]
pub(crate) fn parse_text(parser: &mut tree_sitter::Parser, text: &str, old: Option<&tree_sitter::Tree>) -> Option<tree_sitter::Tree> {
    parser.parse(text, old)
}

/// Relies on `tree_sitter::Tree::edit`: shifts the tree's nodes past the edit.
#[verifier::external_body]
pub(crate) fn edit_tree(tree: &mut tree_sitter::Tree, edit: &InputEdit) {
    let point = |p: Point| tree_sitter::Point { row: p.row, column: p.column };
    tree.edit(
        &tree_sitter::InputEdit {
            start_byte: edit.start_byte,
            old_end_byte: edit.old_end_byte,
            new_end_byte: edit.new_end_byte,
            start_position: point(edit.start_position),
            old_end_position: point(edit.old_end_position),
            new_end_position: point(edit.new_end_position),
        },
    )
}

/// Relies on `tree_sitter::Tree::root_node`.
#[verifier::external_body]
fn root_node(tree: &tree_sitter::Tree) -> tree_sitter::Node<'_> {
    tree.root_node()
}

/// Relies on `tree_sitter::Node::kind`: the grammar's name of the node.
#[verifier::external_body]
fn node_kind(n: &tree_sitter::Node<'_>) -> String {
    n.kind().to_string()
}

/// Relies on `tree_sitter::Node::is_error`.
#[verifier::external_body]
fn node_is_error(n: &tree_sitter::Node<'_>) -> bool {
    n.is_error()
}

/// Relies on `tree_sitter::Node::is_missing`.
#[verifier::external_body]
fn node_is_missing(n: &tree_sitter::Node<'_>) -> bool {
    n.is_missing()
}

/// Relies on `tree_sitter::Node::start_byte`.
#[verifier::external_body]
fn node_start_byte(n: &tree_sitter::Node<'_>) -> usize {
    n.start_byte()
}

/// Relies on `tree_sitter::Node::end_byte`.
#[verifier::external_body]
fn node_end_byte(n: &tree_sitter::Node<'_>) -> usize {
    n.end_byte()
}

/// Relies on `tree_sitter::Node::start_position`.
#[verifier::external_body]
fn node_start_position(n: &tree_sitter::Node<'_>) -> Point {
    let p = n.start_position();
    Point { row: p.row, column: p.column }
}

/// Relies on `tree_sitter::Node::end_position`.
#[verifier::external_body]
fn node_end_position(n: &tree_sitter::Node<'_>) -> Point {
    let p = n.end_position();
    Point { row: p.row, column: p.column }
}

/// Relies on `tree_sitter::Node::child_count`.
#[verifier::external_body]
fn node_child_count(n: &tree_sitter::Node<'_>) -> usize {
    n.child_count()
}

/// Relies on `tree_sitter::Node::child`.
#[verifier::external_body]
fn node_child<'a>(n: &tree_sitter::Node<'a>, i: usize) -> Option<tree_sitter::Node<'a>> {
    n.child(i)
}

/// A match of the include query: whether its directive holds an error, and
/// the byte span of the path it names.
#[derive(Clone, Copy, Debug)]
pub struct IncludeMatch {
    pub has_error: Option<bool>,
    pub path: Option<(usize, usize)>,
}

/// Relies on `tree_sitter::Query::new` and `tree_sitter::QueryCursor::matches`:
/// the matches of `query` (which captures `@include` and `@path`) over the tree
/// of `text`, one entry per match; none where the tree's grammar rejects the
/// query.
#[verifier::external_body]
pub(crate) fn include_matches(tree: &tree_sitter::Tree, text: &str, query: &str) -> Vec<IncludeMatch> {
    let q = match tree_sitter::Query::new(tree.language(), query) {
        Ok(q) => q,
        Err(_) => return Vec::new(),
    };
    let (inc, path) = (q.capture_index_for_name("include"), q.capture_index_for_name("path"));
    let mut cursor = tree_sitter::QueryCursor::new();
    cursor
        .matches(&q, tree.root_node(), text.as_bytes())
        .map(|m| IncludeMatch {
            has_error: inc.and_then(|i| m.nodes_for_capture_index(i).next()).map(|n| n.has_error()),
            path: path.and_then(|i| m.nodes_for_capture_index(i).next()).map(|n| (n.start_byte(), n.end_byte())),
        })
        .collect()
}

/// A node of a syntax tree as plain values: its kind, its error marks, its
/// span, and its children in order.
pub struct SyntaxNode {
    pub kind: String,
    pub is_error: bool,
    pub is_missing: bool,
    pub start_byte: usize,
    pub end_byte: usize,
    pub start: Point,
    pub end: Point,
    pub children: Vec<SyntaxNode>,
}

/// Reads the subtree under `n` into plain values, `depth` levels deep at most.
fn read_node(n: &tree_sitter::Node<'_>, depth: usize) -> (r: SyntaxNode)
    decreases depth,
{
    let mut children: Vec<SyntaxNode> = Vec::new();
    if depth > 0 {
        let count = node_child_count(n);
        let mut i: usize = 0;
        while i < count && i < u32::MAX as usize
            invariant
                i <= count,
                depth > 0,
            decreases count - i,
        {
            if let Some(c) = node_child(n, i) {
                children.push(read_node(&c, depth - 1));
            }
            i = i + 1;
        }
    }
    SyntaxNode {
        kind: node_kind(n),
        is_error: node_is_error(n),
        is_missing: node_is_missing(n),
        start_byte: node_start_byte(n),
        end_byte: node_end_byte(n),
        start: node_start_position(n),
        end: node_end_position(n),
        children,
    }
}

/// The whole of a parsed tree as plain values.
pub fn read_tree(tree: &tree_sitter::Tree) -> (r: SyntaxNode) {
    let root = root_node(tree);
    read_node(&root, usize::MAX)
}

/// The client's range of a node (rows and columns as the client counts them).
pub open spec fn range_of(n: SyntaxNode) -> Range {
    Range {
        start: Position { line: n.start.row as u32, character: n.start.column as u32 },
        end: Position { line: n.end.row as u32, character: n.end.column as u32 },
    }
}

pub fn get_range(n: &SyntaxNode) -> (r: Range)
    ensures
        r == range_of(*n),
{
    Range {
        start: Position { line: n.start.row as u32, character: n.start.column as u32 },
        end: Position { line: n.end.row as u32, character: n.end.column as u32 },
    }
}

/// The bytes `[s, e)` of a text can be cut out of it.
pub open spec fn cuttable(b: Seq<u8>, s: int, e: int) -> bool {
    &&& 0 <= s <= e <= b.len()
    &&& is_char_boundary(b, s)
    &&& is_char_boundary(b.subrange(s, b.len() as int), e - s)
}

/// The text of bytes `[s, e)` of `text`, where they can be cut out.
pub(crate) fn cut(text: &str, s: usize, e: usize) -> (r: Option<&str>)
    ensures
        r is Some <==> cuttable(bytes_of(text@), s as int, e as int),
        r matches Some(piece) ==> piece@ == decode_utf8(bytes_of(text@).subrange(s as int, e as int)),
{
    proof {
        encode_utf8_valid_utf8(text@);
    }
    if s > e || !text.is_char_boundary(s) {
        return None;
    }
    proof {
        valid_utf8_split(bytes_of(text@), s as int);
    }
    let (_, rest) = text.split_at(s);
    if !rest.is_char_boundary(e - s) {
        return None;
    }
    let (piece, _) = rest.split_at(e - s);
    proof {
        assert(piece.spec_bytes() =~= bytes_of(text@).subrange(s as int, e as int));
        encode_utf8_decode_utf8(piece@);
    }
    Some(piece)
}

/// What a syntax error node reports: the unexpected text of a non-empty leaf,
/// the node's kind otherwise.
pub open spec fn error_detail(n: SyntaxNode, text: Seq<char>) -> Seq<char> {
    if n.children@.len() == 0 && n.start_byte < n.end_byte && cuttable(bytes_of(text), n.start_byte as int, n.end_byte as int) {
        "UNEXPECTED '"@ + decode_utf8(bytes_of(text).subrange(n.start_byte as int, n.end_byte as int)) + "'"@
    } else {
        n.kind@
    }
}

pub open spec fn syntax_view(n: SyntaxNode, detail: Seq<char>) -> DiagnosticView {
    DiagnosticView {
        range: range_of(n),
        severity: Severity::Error,
        code: None,
        source: "tree-sitter-ccsc"@,
        message: "Syntax error: '"@ + detail + "'"@,
    }
}

/// The diagnostics a node raises about itself: one if it is an error, one if it
/// is missing.
pub open spec fn own_diagnostics(n: SyntaxNode, text: Seq<char>) -> Seq<DiagnosticView> {
    (if n.is_error {
        seq![syntax_view(n, error_detail(n, text))]
    } else {
        Seq::empty()
    }) + (if n.is_missing {
        seq![syntax_view(n, "MISSING "@ + n.kind@)]
    } else {
        Seq::empty()
    })
}

/// The syntax diagnostics of a subtree, nodes visited in document order.
pub open spec fn tree_diagnostics(n: SyntaxNode, text: Seq<char>) -> Seq<DiagnosticView>
    decreases n,
{
    own_diagnostics(n, text) + forest_diagnostics(n.children@, text)
}

pub open spec fn forest_diagnostics(cs: Seq<SyntaxNode>, text: Seq<char>) -> Seq<DiagnosticView>
    decreases cs,
{
    if cs.len() == 0 {
        Seq::empty()
    } else {
        forest_diagnostics(cs.drop_last(), text) + tree_diagnostics(cs.last(), text)
    }
}

fn push_syntax_diagnostic(out: &mut Vec<Diagnostic>, n: &SyntaxNode, detail: String)
    ensures
        views(final(out)@) == views(old(out)@).push(syntax_view(*n, detail@)),
{
    let d = create_syntax_diagnostic(get_range(n), detail);
    proof {
        lemma_views_push(out@, d);
    }
    out.push(d);
}

/// Appends the syntax diagnostics of the subtree `n` to `out`.
pub fn collect_syntax_diagnostics(n: &SyntaxNode, text: &str, out: &mut Vec<Diagnostic>)
    ensures
        views(final(out)@) == views(old(out)@) + tree_diagnostics(*n, text@),
    decreases n,
{
    let ghost start = views(out@);
    if n.is_error {
        let mut detail = n.kind.clone();
        if n.children.len() == 0 && n.start_byte < n.end_byte {
            if let Some(piece) = cut(text, n.start_byte, n.end_byte) {
                detail = String::from_str("UNEXPECTED '");
                detail.append(piece);
                detail.append("'");
            }
        }
        push_syntax_diagnostic(out, n, detail);
    }
    if n.is_missing {
        let mut detail = String::from_str("MISSING ");
        detail.append(n.kind.as_str());
        push_syntax_diagnostic(out, n, detail);
    }
    assert(views(out@) =~= start + own_diagnostics(*n, text@));
    let mut i: usize = 0;
    while i < n.children.len()
        invariant
            i <= n.children@.len(),
            views(out@) == start + own_diagnostics(*n, text@) + forest_diagnostics(n.children@.subrange(0, i as int), text@),
        decreases n.children@.len() - i,
    {
        collect_syntax_diagnostics(&n.children[i], text, out);
        proof {
            let sub = n.children@.subrange(0, i + 1);
            assert(sub.drop_last() =~= n.children@.subrange(0, i as int));
            assert(sub.last() == n.children@[i as int]);
        }
        i = i + 1;
        assert(views(out@) =~= start + own_diagnostics(*n, text@) + forest_diagnostics(n.children@.subrange(0, i as int), text@));
    }
    assert(n.children@.subrange(0, i as int) =~= n.children@);
    assert(views(out@) =~= start + tree_diagnostics(*n, text@));
}

/// The syntax diagnostics of a tree over `text`.
pub fn syntax_diagnostics(root: &SyntaxNode, text: &str) -> (r: Vec<Diagnostic>)
    ensures
        views(r@) == tree_diagnostics(*root, text@),
{
    let mut out: Vec<Diagnostic> = Vec::new();
    collect_syntax_diagnostics(root, text, &mut out);
    assert(views(out@) =~= tree_diagnostics(*root, text@));
    out
}

/// `a` comes no later than `b`.
pub open spec fn point_le(a: Point, b: Point) -> bool {
    a.row < b.row || (a.row == b.row && a.column <= b.column)
}

/// The node spans `p`: it starts no later and ends no earlier.
pub open spec fn spans(n: SyntaxNode, p: Point) -> bool {
    point_le(n.start, p) && point_le(p, n.end)
}

/// Index of the first child that spans `p`, if any.
pub open spec fn first_child_spanning(cs: Seq<SyntaxNode>, p: Point) -> Option<int> {
    if exists|i: int| 0 <= i < cs.len() && spans(#[trigger] cs[i], p) {
        Some(choose|i: int| 0 <= i < cs.len() && spans(#[trigger] cs[i], p)
            && forall|j: int| 0 <= j < i ==> !spans(#[trigger] cs[j], p))
    } else {
        None
    }
}

/// The kinds met when descending from `n` towards `p` through the first child
/// that spans `p`, and the deepest node reached.
pub open spec fn descent(n: SyntaxNode, p: Point) -> (Seq<Seq<char>>, SyntaxNode)
    decreases n,
{
    match first_child_spanning(n.children@, p) {
        Some(i) => if 0 <= i < n.children@.len() {
            let d = descent(n.children@[i], p);
            (seq![n.kind@] + d.0, d.1)
        } else {
            (seq![n.kind@], n)
        },
        None => (seq![n.kind@], n),
    }
}

fn first_child_index(cs: &Vec<SyntaxNode>, p: Point) -> (r: Option<usize>)
    ensures
        match first_child_spanning(cs@, p) {
            Some(i) => r == Some(i as usize) && 0 <= i < cs@.len(),
            None => r is None,
        },
{
    let mut i: usize = 0;
    while i < cs.len()
        invariant
            i <= cs@.len(),
            forall|j: int| 0 <= j < i ==> !spans(#[trigger] cs@[j], p),
        decreases cs@.len() - i,
    {
        let st = cs[i].start;
        let e = cs[i].end;
        if (st.row < p.row || (st.row == p.row && st.column <= p.column))
            && (p.row < e.row || (p.row == e.row && p.column <= e.column)) {
            proof {
                let k = choose|k: int| 0 <= k < cs@.len() && spans(#[trigger] cs@[k], p)
                    && forall|j: int| 0 <= j < k ==> !spans(#[trigger] cs@[j], p);
                if k > i {
                    assert(!spans(cs@[k], p) || spans(cs@[i as int], p));
                }
            }
            return Some(i);
        }
        i = i + 1;
    }
    None
}

/// The slash-separated chain of kinds from `n` down to the deepest node that
/// spans `p`, and that node's range.
pub fn hover_chain(n: &SyntaxNode, p: Point) -> (r: (String, Range))
    ensures
        r.0@ == joined(descent(*n, p).0, "/"@),
        r.1 == range_of(descent(*n, p).1),
    decreases n,
{
    match first_child_index(&n.children, p) {
        Some(i) => {
            let (rest, range) = hover_chain(&n.children[i], p);
            let mut s = n.kind.clone();
            s.append("/");
            s.append(rest.as_str());
            proof {
                let c = n.children@[i as int];
                assert(first_child_spanning(n.children@, p) == Some(i as int));
                assert(descent(*n, p) == (seq![n.kind@] + descent(c, p).0, descent(c, p).1));
                lemma_descent_nonempty(c, p);
                lemma_joined_cons(n.kind@, descent(c, p).0, "/"@);
            }
            (s, range)
        },
        None => {
            proof {
                assert(first_child_spanning(n.children@, p) is None);
                assert(descent(*n, p) == (seq![n.kind@], *n));
                assert(joined(seq![n.kind@], "/"@) == n.kind@);
            }
            (n.kind.clone(), get_range(n))
        },
    }
}

proof fn lemma_descent_nonempty(n: SyntaxNode, p: Point)
    ensures
        descent(n, p).0.len() > 0,
{
    match first_child_spanning(n.children@, p) {
        Some(i) => {
            if 0 <= i < n.children@.len() {
                assert(descent(n, p).0 == seq![n.kind@] + descent(n.children@[i], p).0);
            }
        },
        None => {},
    }
}

/// The parts joined with `sep` between each two.
pub open spec fn joined(parts: Seq<Seq<char>>, sep: Seq<char>) -> Seq<char>
    decreases parts.len(),
{
    if parts.len() == 0 {
        Seq::empty()
    } else if parts.len() == 1 {
        parts[0]
    } else {
        parts[0] + sep + joined(parts.drop_first(), sep)
    }
}

proof fn lemma_joined_cons(head: Seq<char>, tail: Seq<Seq<char>>, sep: Seq<char>)
    requires
        tail.len() > 0,
    ensures
        joined(seq![head] + tail, sep) == head + sep + joined(tail, sep),
{
    assert((seq![head] + tail).drop_first() =~= tail);
}

/// The strings joined with `sep` between each two.
pub fn join_strings(parts: &Vec<String>, sep: &str) -> (r: String)
    ensures
        r@ == joined(parts@.map_values(|s: String| s@), sep@),
{
    let ghost ps = parts@.map_values(|s: String| s@);
    if parts.len() == 0 {
        return String::new();
    }
    let mut i: usize = parts.len() - 1;
    let mut out = parts[i].clone();
    assert(ps.subrange(i as int, ps.len() as int) =~= seq![ps[i as int]]);
    while i > 0
        invariant
            i < parts@.len(),
            ps == parts@.map_values(|s: String| s@),
            out@ == joined(ps.subrange(i as int, ps.len() as int), sep@),
        decreases i,
    {
        i = i - 1;
        let mut s = parts[i].clone();
        s.append(sep);
        s.append(out.as_str());
        proof {
            let tail = ps.subrange(i + 1, ps.len() as int);
            assert(ps.subrange(i as int, ps.len() as int) =~= seq![ps[i as int]] + tail);
            lemma_joined_cons(ps[i as int], tail, sep@);
        }
        out = s;
    }
    assert(ps.subrange(0, ps.len() as int) =~= ps);
    out
}

} // verus!
