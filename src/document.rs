use vstd::prelude::*;
use vstd::string::StringExecFns;
use vstd::utf8::{
    decode_utf8, encode_utf8_decode_utf8, encode_utf8_valid_utf8, is_char_boundary,
    is_char_boundary_iff_not_is_continuation_byte, is_char_boundary_start_end_of_seq,
};

use crate::diagnostic::{extend_with, views, Diagnostic, Range};
use crate::edit::{apply_change, change_result, lemma_splice_valid, splice};
use crate::error::LsError;
use crate::paths::{directory_of, join_path, parent_of, path_joined, str_eq};
use crate::position::{
    bytes_of, lemma_clamps_to_end, lemma_offset_is_boundary, lemma_offset_point_round_trip,
    lemma_table_starts_at_zero, offset_of, position_of, table_of, Point, TextDocumentSource,
};
use crate::syntax::{
    cut, cuttable, edit_tree, include_matches, parse_text, read_tree, syntax_diagnostics, tree_diagnostics,
    IncludeMatch, InputEdit, SyntaxNode,
};

verus! {

broadcast use vstd::seq::group_seq_axioms, vstd::std_specs::vec::group_vec_axioms;

/// One change of a document's text: the range it replaces, or the whole text
/// where there is none, and the new text.
pub struct ContentChange {
    pub range: Option<Range>,
    pub text: String,
}

/// The points a change replaces between: its range, or `(0, 0)` to
/// `(u32::MAX, u32::MAX)` where it has none, which clamps to the whole text.
pub open spec fn change_points(range: Option<Range>) -> (Point, Point) {
    match range {
        Some(r) => (
            Point { row: r.start.line as usize, column: r.start.character as usize },
            Point { row: r.end.line as usize, column: r.end.character as usize },
        ),
        None => (
            Point { row: 0, column: 0 },
            Point { row: u32::MAX as usize, column: u32::MAX as usize },
        ),
    }
}

/// The bytes a change replaces in `text`.
pub open spec fn change_span(text: Seq<char>, range: Option<Range>) -> (int, int) {
    let t = table_of(bytes_of(text));
    let (s, e) = change_points(range);
    (offset_of(t, s.row as int, s.column as int) as int, offset_of(t, e.row as int, e.column as int) as int)
}

/// The text after one change, or why it cannot be made.
pub open spec fn apply_one(text: Seq<char>, range: Option<Range>, new_text: Seq<char>) -> Result<Seq<char>, LsError> {
    let (s, e) = change_span(text, range);
    match change_result(text, new_text, s, e) {
        Ok(b) => Ok(decode_utf8(b)),
        Err(err) => Err(err),
    }
}

/// The text after applying the changes in order, and the error that stopped
/// them, if one did: the changes before it stay applied.
pub open spec fn apply_all(text: Seq<char>, cs: Seq<(Option<Range>, Seq<char>)>) -> (Seq<char>, Option<LsError>)
    decreases cs.len(),
{
    if cs.len() == 0 {
        (text, None)
    } else {
        match apply_one(text, cs[0].0, cs[0].1) {
            Ok(t) => apply_all(t, cs.drop_first()),
            Err(e) => (text, Some(e)),
        }
    }
}

pub open spec fn change_views(cs: Seq<ContentChange>) -> Seq<(Option<Range>, Seq<char>)> {
    cs.map_values(|c: ContentChange| (c.range, c.text@))
}

/// Computes the text after `change` and the edit that describes it to the
/// parser.
pub fn preprocess_change(source: &TextDocumentSource, change: &ContentChange) -> (r: Result<(TextDocumentSource, InputEdit), LsError>)
    ensures
        match apply_one(source.text(), change.range, change.text@) {
            Ok(t) => r matches Ok((s, e)) && s.text() == t && s.table() == table_of(bytes_of(t))
                && e.start_byte == change_span(source.text(), change.range).0
                && e.old_end_byte == change_span(source.text(), change.range).1
                && e.new_end_byte == e.start_byte + bytes_of(change.text@).len()
                && e.start_position == change_points(change.range).0
                && e.old_end_position == change_points(change.range).1
                && position_of(table_of(bytes_of(t)), e.new_end_byte as int) == Some(e.new_end_position),
            Err(err) => r == Err::<(TextDocumentSource, InputEdit), LsError>(err),
        },
{
    source.check_table();
    let (start_position, old_end_position) = match change.range {
        Some(rg) => (
            Point { row: rg.start.line as usize, column: rg.start.character as usize },
            Point { row: rg.end.line as usize, column: rg.end.character as usize },
        ),
        None => (Point { row: 0, column: 0 }, Point { row: u32::MAX as usize, column: u32::MAX as usize }),
    };
    let start_byte = source.get_offset_for_point(&start_position)?;
    let old_end_byte = source.get_offset_for_point(&old_end_position)?;
    let raw = source.get_raw().to_string();
    let text = change.text.clone();
    let new_raw = apply_change(raw, text, start_byte..old_end_byte)?;
    let ghost nb = bytes_of(new_raw@);
    proof {
        encode_utf8_decode_utf8(new_raw@);
        encode_utf8_valid_utf8(source.text());
    }
    // The edited text's length, which bounds where the inserted text ends.
    let new_len = new_raw.as_str().as_bytes().len();
    let diff_len = change.text.as_str().as_bytes().len();
    assert(nb.len() == start_byte + diff_len + (bytes_of(source.text()).len() - old_end_byte));
    let new_end_byte = start_byte + diff_len;
    assert(new_end_byte <= new_len);
    proof {
        lemma_offset_is_boundary(source.text(), start_position.row as int, start_position.column as int);
        lemma_offset_is_boundary(source.text(), old_end_position.row as int, old_end_position.column as int);
        lemma_edit_end_is_boundary(source.text(), change.text@, start_byte as int, old_end_byte as int);
        vstd::utf8::decode_utf8_encode_utf8(nb);
        lemma_offset_point_round_trip(new_raw@, new_end_byte as int);
    }
    let new_source = TextDocumentSource::from(new_raw);
    let new_end_position = new_source.get_point_from_byte_idx(new_end_byte)?;
    Ok((new_source, InputEdit { start_byte, old_end_byte, new_end_byte, start_position, old_end_position, new_end_position }))
}

/// The end of the inserted text is a character boundary of the edited text.
proof fn lemma_edit_end_is_boundary(text: Seq<char>, diff: Seq<char>, s: int, e: int)
    requires
        is_char_boundary(bytes_of(text), s),
        is_char_boundary(bytes_of(text), e),
        s <= e,
    ensures
        is_char_boundary(splice(bytes_of(text), bytes_of(diff), s, e), s + bytes_of(diff).len()),
{
    let b = bytes_of(text);
    let d = bytes_of(diff);
    let n = splice(b, d, s, e);
    let k = s + d.len();
    encode_utf8_valid_utf8(text);
    encode_utf8_valid_utf8(diff);
    lemma_splice_valid(b, d, s, e);
    assert(0 <= e <= b.len()) by {
        reveal_with_fuel(is_char_boundary, 2);
    }
    if k < n.len() {
        assert(n[k] == b[e]);
        is_char_boundary_iff_not_is_continuation_byte(b, e);
        is_char_boundary_iff_not_is_continuation_byte(n, k);
    } else {
        is_char_boundary_start_end_of_seq(n);
    }
}

/// The outcome of a call: success, or the error it gave.
pub open spec fn outcome<T>(r: Result<T, LsError>) -> Result<(), LsError> {
    match r {
        Ok(_) => Ok(()),
        Err(e) => Err(e),
    }
}

/// `d2` is the document `d` after the changes `cs` were applied and reparsed
/// one by one, with outcome `r`:
/// - the path, includes and compiler diagnostics stay, and the source is
///   that of its text;
/// - on success every change is applied in order;
/// - a change that cannot be made stops the batch there, the changes before
///   it applied;
/// - a missing tree stops the batch: at once if the document had none, else
///   right after a reparse that gave none, with that change applied and the
///   document left without a tree;
/// - with a tree at the start, the first change's own error is the outcome,
///   and a batch whose changes can all be made succeeds exactly when every
///   reparse gave a tree;
/// - an empty batch changes nothing.
pub open spec fn reparsed(d: TextDocument, d2: TextDocument, cs: Seq<(Option<Range>, Seq<char>)>, r: Result<(), LsError>) -> bool {
    &&& d2.wf()
    &&& d2.absolute_path == d.absolute_path
    &&& d2.compiler_diagnostics == d.compiler_diagnostics
    &&& d2.included_files == d.included_files
    &&& r is Ok ==> d2.source.text() == apply_all(d.source.text(), cs).0 && apply_all(d.source.text(), cs).1 is None
    &&& r matches Err(e) ==> (e != LsError::NoSyntaxTree ==> apply_all(d.source.text(), cs) == (d2.source.text(), Some(e)))
    &&& r == Err::<(), LsError>(LsError::NoSyntaxTree) ==> d2.syntax_tree is None && exists|k: int|
        0 <= k <= cs.len() && (d.syntax_tree is Some ==> 1 <= k) && (d.syntax_tree is None ==> k == 0)
            && #[trigger] apply_all(d.source.text(), cs.subrange(0, k)) == (d2.source.text(), None::<LsError>)
    &&& cs.len() > 0 && r is Ok ==> d2.syntax_tree is Some
    &&& d.syntax_tree is None && cs.len() > 0 ==> r == Err::<(), LsError>(LsError::NoSyntaxTree)
        && d2.source.text() == d.source.text()
    &&& d.syntax_tree is Some && cs.len() > 0 ==> (apply_one(d.source.text(), cs[0].0, cs[0].1) matches Err(e)
        ==> r == Err::<(), LsError>(e))
    &&& d.syntax_tree is Some && cs.len() > 0 && apply_all(d.source.text(), cs).1 is None
        ==> (r is Ok <==> d2.syntax_tree is Some)
    &&& d.syntax_tree is Some && apply_all(d.source.text(), cs).1 is None ==> (r is Ok
        || (r == Err::<(), LsError>(LsError::NoSyntaxTree) && d2.syntax_tree is None))
    &&& cs.len() == 0 ==> r is Ok && d2.source == d.source && d2.syntax_tree == d.syntax_tree
}

/// A tracked source file: its text, its syntax tree, the files it includes and
/// the compiler's diagnostics about it.
pub struct TextDocument {
    pub absolute_path: String,
    pub source: TextDocumentSource,
    pub syntax_tree: Option<tree_sitter::Tree>,
    pub included_files: Vec<String>,
    pub compiler_diagnostics: Vec<Diagnostic>,
}

impl TextDocument {
    /// The document's source matches its text.
    pub open spec fn wf(&self) -> bool {
        self.source.table() == table_of(bytes_of(self.source.text()))
    }

    /// Parses `raw` from scratch and records the files it includes.
    pub fn new(absolute_path: String, raw: String, parser: &mut tree_sitter::Parser) -> (r: TextDocument)
        ensures
            r.wf(),
            r.absolute_path == absolute_path,
            r.source.text() == raw@,
            r.compiler_diagnostics@.len() == 0,
            r.syntax_tree is None ==> r.included_files@.len() == 0,
            r.syntax_tree is Some ==> exists|ms: Seq<IncludeMatch>|
                strings_set(r.included_files@) == #[trigger] resolved_includes(ms, raw@, absolute_path@),
            forall|i: int, j: int| 0 <= i < j < r.included_files@.len() ==> r.included_files@[i]@ != r.included_files@[j]@,
    {
        let source = TextDocumentSource::from(raw);
        let syntax_tree = parse_text(parser, source.get_raw(), None);
        let included_files = match &syntax_tree {
            Some(tree) => {
                let matches = include_matches(tree, source.get_raw(), "(preproc_include path: (_) @path) @include");
                resolve_includes(&matches, source.get_raw(), absolute_path.as_str())
            },
            None => Vec::new(),
        };
        TextDocument {
            absolute_path,
            source,
            syntax_tree,
            included_files,
            compiler_diagnostics: Vec::new(),
        }
    }

    /// Applies the changes in order, each to the text the one before left, and
    /// reparses after each. A change that cannot be made stops the batch and
    /// leaves the changes before it applied. Returns the texts passed through.
    pub fn reparse_with_lsp(&mut self, params: Vec<ContentChange>, parser: &mut tree_sitter::Parser) -> (r: Result<String, LsError>)
        ensures
            reparsed(*old(self), *final(self), change_views(params@), outcome(r)),
            params@.len() == 0 ==> (r matches Ok(log) && log@ == Seq::<char>::empty()),
    {
        self.source.check_table();
        let ghost cs = change_views(params@);
        let ghost orig = self.source.text();
        let mut log = String::new();
        let mut i: usize = 0;
        assert(cs.subrange(0, 0) =~= Seq::<(Option<Range>, Seq<char>)>::empty());
        assert(cs.subrange(0, cs.len() as int) =~= cs);
        while i < params.len()
            invariant
                i <= params@.len(),
                cs == change_views(params@),
                self.wf(),
                self.absolute_path == old(self).absolute_path,
                self.compiler_diagnostics == old(self).compiler_diagnostics,
                self.included_files == old(self).included_files,
                i == 0 ==> self.source == old(self).source && log@ == Seq::<char>::empty(),
                apply_all(orig, cs) == apply_all(self.source.text(), cs.subrange(i as int, cs.len() as int)),
                apply_all(orig, cs.subrange(0, i as int)) == (self.source.text(), None::<LsError>),
                i == 0 ==> self.syntax_tree == old(self).syntax_tree && self.source.text() == orig,
                old(self).syntax_tree is None ==> i == 0,
                i > 0 ==> self.syntax_tree is Some,
                orig == old(self).source.text(),
            decreases params@.len() - i,
        {
            let change = &params[i];
            let ghost cur = self.source.text();
            proof {
                lemma_apply_all_step(cur, cs.subrange(i as int, cs.len() as int));
                assert(cs.subrange(i as int, cs.len() as int)[0] == cs[i as int]);
                assert(cs.subrange(i as int, cs.len() as int).drop_first() =~= cs.subrange(i + 1, cs.len() as int));
                assert(cs.subrange(0, i + 1).drop_last() =~= cs.subrange(0, i as int));
                assert(cs.subrange(0, i + 1).last() == cs[i as int]);
                lemma_apply_all_snoc(orig, cs.subrange(0, i + 1));
                assert(0 <= i <= params@.len() && apply_all(orig, change_views(params@).subrange(0, i as int)) == (cur, None::<LsError>));
            }
            if self.syntax_tree.is_none() {
                assert(apply_all(orig, cs.subrange(0, i as int)) == (self.source.text(), None::<LsError>));
                assert(old(self).syntax_tree is Some ==> 1 <= i);
                assert(exists|k: int| 0 <= k <= cs.len() && (old(self).syntax_tree is Some ==> 1 <= k)
                    && (old(self).syntax_tree is None ==> k == 0)
                    && apply_all(orig, cs.subrange(0, k)) == (self.source.text(), None::<LsError>));
                return Err(LsError::NoSyntaxTree);
            }
            let (source, edit) = match preprocess_change(&self.source, change) {
                Ok(x) => x,
                Err(e) => {
                    assert(apply_all(orig, cs) == (cur, Some(e)));
                    assert(apply_all(orig, change_views(params@).subrange(0, i as int)) == (self.source.text(), None::<LsError>));
                    return Err(e);
                },
            };
            let tree = match &mut self.syntax_tree {
                Some(t) => t,
                None => {
                    return Err(LsError::NoSyntaxTree);
                },
            };
            edit_tree(tree, &edit);
            let new_tree = parse_text(parser, source.get_raw(), Some(&*tree));
            log.append(source.get_raw());
            log.append("\n\n---\n\n");
            self.source = source;
            if new_tree.is_none() {
                self.syntax_tree = None;
                assert(apply_all(orig, cs.subrange(0, i + 1)) == (self.source.text(), None::<LsError>));
                assert(exists|k: int| 0 <= k <= cs.len() && (old(self).syntax_tree is Some ==> 1 <= k)
                    && (old(self).syntax_tree is None ==> k == 0)
                    && apply_all(orig, cs.subrange(0, k)) == (self.source.text(), None::<LsError>));
                return Err(LsError::NoSyntaxTree);
            }
            self.syntax_tree = new_tree;
            i = i + 1;
        }
        Ok(log)
    }

    /// The syntax diagnostics of the current tree.
    pub fn get_syntax_errors(&self) -> (r: Result<Vec<Diagnostic>, LsError>)
        ensures
            self.syntax_tree is None ==> r == Err::<Vec<Diagnostic>, LsError>(LsError::NoSyntaxTree),
            self.syntax_tree is Some ==> r is Ok,
            r matches Ok(ds) ==> exists|root: SyntaxNode| views(ds@) == #[trigger] tree_diagnostics(root, self.source.text()),
    {
        match &self.syntax_tree {
            Some(tree) => {
                let root = read_tree(tree);
                Ok(syntax_diagnostics(&root, self.source.get_raw()))
            },
            None => Err(LsError::NoSyntaxTree),
        }
    }

    /// The syntax diagnostics of the current tree followed by the compiler's.
    pub fn get_diagnostics(&self) -> (r: Result<Vec<Diagnostic>, LsError>)
        ensures
            self.syntax_tree is None ==> r == Err::<Vec<Diagnostic>, LsError>(LsError::NoSyntaxTree),
            self.syntax_tree is Some ==> r is Ok,
            r matches Ok(ds) ==> exists|root: SyntaxNode|
                views(ds@) == #[trigger] tree_diagnostics(root, self.source.text()) + views(self.compiler_diagnostics@),
    {
        match &self.syntax_tree {
            Some(tree) => {
                let root = read_tree(tree);
                Ok(merge_diagnostics(&root, self.source.get_raw(), &self.compiler_diagnostics))
            },
            None => Err(LsError::NoSyntaxTree),
        }
    }

    pub fn get_syntax_tree(&self) -> (r: Result<&tree_sitter::Tree, LsError>)
        ensures
            match self.syntax_tree {
                Some(t) => r == Ok::<&tree_sitter::Tree, LsError>(&t),
                None => r == Err::<&tree_sitter::Tree, LsError>(LsError::NoSyntaxTree),
            },
    {
        match &self.syntax_tree {
            Some(t) => Ok(t),
            None => Err(LsError::NoSyntaxTree),
        }
    }

    pub fn get_compiler_diagnostics(&self) -> (r: &Vec<Diagnostic>)
        ensures
            r == &self.compiler_diagnostics,
    {
        &self.compiler_diagnostics
    }

    /// Replaces the compiler's diagnostics of the document.
    pub fn set_compiler_diagnostics(&mut self, diagnostics: Vec<Diagnostic>)
        ensures
            final(self).compiler_diagnostics == diagnostics,
            final(self).absolute_path == old(self).absolute_path,
            final(self).source == old(self).source,
            final(self).syntax_tree == old(self).syntax_tree,
            final(self).included_files == old(self).included_files,
    {
        self.compiler_diagnostics = diagnostics;
    }
}

/// The syntax diagnostics of the tree `root` over `text`, followed by `compiler`.
pub fn merge_diagnostics(root: &SyntaxNode, text: &str, compiler: &Vec<Diagnostic>) -> (r: Vec<Diagnostic>)
    ensures
        views(r@) == tree_diagnostics(*root, text@) + views(compiler@),
{
    let mut out = syntax_diagnostics(root, text);
    extend_with(&mut out, compiler);
    out
}

/// The strings of a list, as a set.
pub open spec fn strings_set(v: Seq<String>) -> Set<Seq<char>> {
    Set::new(|l: Seq<char>| exists|k: int| 0 <= k < v.len() && v[k]@ == l)
}

proof fn lemma_strings_set_push(v: Seq<String>, x: String)
    ensures
        strings_set(v.push(x)) == strings_set(v).insert(x@),
{
    assert forall|l: Seq<char>| strings_set(v.push(x)).contains(l) implies strings_set(v).insert(x@).contains(l) by {
        let k = choose|k: int| 0 <= k < v.push(x).len() && v.push(x)[k]@ == l;
        if k < v.len() {
            assert(v[k]@ == l);
        }
    }
    assert forall|l: Seq<char>| strings_set(v).insert(x@).contains(l) implies strings_set(v.push(x)).contains(l) by {
        if l == x@ {
            assert(v.push(x)[v.len() as int]@ == l);
        } else {
            let k = choose|k: int| 0 <= k < v.len() && v[k]@ == l;
            assert(v.push(x)[k]@ == l);
        }
    }
    assert(strings_set(v.push(x)) =~= strings_set(v).insert(x@));
}

/// The text between the quotes of the quoted literal at bytes `[s, e)` of a
/// text, if the bytes hold one.
pub open spec fn quoted_inner(b: Seq<u8>, s: int, e: int) -> Option<Seq<char>> {
    if 0 <= s && s + 2 < e && e <= b.len() && b[s] == 34u8 && b[e - 1] == 34u8 && cuttable(b, s + 1, e - 1) {
        Some(decode_utf8(b.subrange(s + 1, e - 1)))
    } else {
        None
    }
}

/// The literal an include match names: the text between the quotes of its
/// path, where its directive holds no error.
pub open spec fn match_literal(m: IncludeMatch, b: Seq<u8>) -> Option<Seq<char>> {
    if m.has_error == Some(true) {
        None
    } else {
        match m.path {
            Some((s, e)) => quoted_inner(b, s as int, e as int),
            None => None,
        }
    }
}

/// The literals the include matches name.
pub open spec fn include_literals(ms: Seq<IncludeMatch>, text: Seq<char>) -> Set<Seq<char>> {
    Set::new(|l: Seq<char>| exists|i: int| 0 <= i < ms.len() && #[trigger] match_literal(ms[i], bytes_of(text)) == Some(l))
}

/// The files a document at `doc_path` includes: the literals of its include
/// matches resolved against its directory.
pub open spec fn resolved_includes(ms: Seq<IncludeMatch>, text: Seq<char>, doc_path: Seq<char>) -> Set<Seq<char>> {
    include_literals(ms, text).map(|l: Seq<char>| path_joined(parent_of(doc_path), l))
}

proof fn lemma_literals_push(ms: Seq<IncludeMatch>, m: IncludeMatch, text: Seq<char>)
    ensures
        include_literals(ms.push(m), text) == match match_literal(m, bytes_of(text)) {
            Some(l) => include_literals(ms, text).insert(l),
            None => include_literals(ms, text),
        },
{
    let b = bytes_of(text);
    let n = ms.push(m);
    let rhs = match match_literal(m, b) {
        Some(l) => include_literals(ms, text).insert(l),
        None => include_literals(ms, text),
    };
    assert forall|l: Seq<char>| include_literals(n, text).contains(l) implies rhs.contains(l) by {
        let i = choose|i: int| 0 <= i < n.len() && #[trigger] match_literal(n[i], b) == Some(l);
        if i < ms.len() {
            assert(n[i] == ms[i]);
        }
    }
    assert forall|l: Seq<char>| rhs.contains(l) implies include_literals(n, text).contains(l) by {
        if include_literals(ms, text).contains(l) {
            let i = choose|i: int| 0 <= i < ms.len() && #[trigger] match_literal(ms[i], b) == Some(l);
            assert(n[i] == ms[i]);
        } else {
            assert(match_literal(n[ms.len() as int], b) == Some(l));
        }
    }
    assert(include_literals(n, text) =~= rhs);
}

/// The literal between the quotes at bytes `[s, e)` of `text`.
fn quoted_literal(text: &str, s: usize, e: usize) -> (r: Option<String>)
    ensures
        match quoted_inner(bytes_of(text@), s as int, e as int) {
            Some(l) => r matches Some(x) && x@ == l,
            None => r is None,
        },
{
    let b = text.as_bytes();
    if !(s < e && e - s > 2 && e <= b.len()) {
        return None;
    }
    if b[s] != 34 || b[e - 1] != 34 {
        return None;
    }
    match cut(text, s + 1, e - 1) {
        Some(piece) => Some(piece.to_string()),
        None => None,
    }
}

/// The literals that the include matches name, as strings.
fn collect_include_literals(ms: &Vec<IncludeMatch>, text: &str) -> (r: Vec<String>)
    ensures
        strings_set(r@) == include_literals(ms@, text@),
{
    let mut out: Vec<String> = Vec::new();
    let mut i: usize = 0;
    assert(strings_set(out@) =~= include_literals(ms@.subrange(0, 0), text@));
    while i < ms.len()
        invariant
            i <= ms@.len(),
            strings_set(out@) == include_literals(ms@.subrange(0, i as int), text@),
        decreases ms@.len() - i,
    {
        let m = ms[i];
        proof {
            assert(ms@.subrange(0, i + 1) =~= ms@.subrange(0, i as int).push(m));
            lemma_literals_push(ms@.subrange(0, i as int), m, text@);
        }
        let skip = match m.has_error {
            Some(e) => e,
            None => false,
        };
        if !skip {
            if let Some((s, e)) = m.path {
                if let Some(l) = quoted_literal(text, s, e) {
                    proof {
                        lemma_strings_set_push(out@, l);
                    }
                    out.push(l);
                }
            }
        }
        i = i + 1;
    }
    assert(ms@.subrange(0, i as int) =~= ms@);
    out
}

fn contains_string(v: &Vec<String>, s: &String) -> (r: bool)
    ensures
        r == strings_set(v@).contains(s@),
{
    let mut i: usize = 0;
    while i < v.len()
        invariant
            i <= v@.len(),
            forall|k: int| 0 <= k < i ==> v@[k]@ != s@,
        decreases v@.len() - i,
    {
        if v[i] == *s {
            return true;
        }
        i = i + 1;
    }
    false
}

/// The files a document at `doc_path` with include matches `ms` includes,
/// each once.
pub fn resolve_includes(ms: &Vec<IncludeMatch>, text: &str, doc_path: &str) -> (r: Vec<String>)
    ensures
        strings_set(r@) == resolved_includes(ms@, text@, doc_path@),
        forall|i: int, j: int| 0 <= i < j < r@.len() ==> r@[i]@ != r@[j]@,
{
    let literals = collect_include_literals(ms, text);
    let dir = directory_of(doc_path);
    let ghost f = |l: Seq<char>| path_joined(parent_of(doc_path@), l);
    let mut out: Vec<String> = Vec::new();
    let mut i: usize = 0;
    while i < literals.len()
        invariant
            i <= literals@.len(),
            dir@ == parent_of(doc_path@),
            f == |l: Seq<char>| path_joined(parent_of(doc_path@), l),
            strings_set(out@) == strings_set(literals@.subrange(0, i as int)).map(f),
            forall|a: int, b: int| 0 <= a < b < out@.len() ==> out@[a]@ != out@[b]@,
        decreases literals@.len() - i,
    {
        let p = join_path(dir.as_str(), literals[i].as_str());
        proof {
            lemma_strings_set_push(literals@.subrange(0, i as int), literals@[i as int]);
            assert(literals@.subrange(0, i + 1) =~= literals@.subrange(0, i as int).push(literals@[i as int]));
            lemma_map_insert(strings_set(literals@.subrange(0, i as int)), literals@[i as int]@, f);
        }
        if !contains_string(&out, &p) {
            proof {
                lemma_strings_set_push(out@, p);
            }
            out.push(p);
        } else {
            assert(strings_set(out@).insert(p@) =~= strings_set(out@));
        }
        i = i + 1;
    }
    assert(literals@.subrange(0, i as int) =~= literals@);
    out
}

proof fn lemma_map_insert(s: Set<Seq<char>>, x: Seq<char>, f: spec_fn(Seq<char>) -> Seq<char>)
    ensures
        s.insert(x).map(f) == s.map(f).insert(f(x)),
{
    assert forall|y: Seq<char>| s.insert(x).map(f).contains(y) implies s.map(f).insert(f(x)).contains(y) by {
        let a = choose|a: Seq<char>| s.insert(x).contains(a) && y == f(a);
        if a != x {
            assert(s.contains(a));
        }
    }
    assert forall|y: Seq<char>| s.map(f).insert(f(x)).contains(y) implies s.insert(x).map(f).contains(y) by {
        if y == f(x) {
            assert(s.insert(x).contains(x));
        } else {
            let a = choose|a: Seq<char>| s.contains(a) && y == f(a);
            assert(s.insert(x).contains(a));
        }
    }
    assert(s.insert(x).map(f) =~= s.map(f).insert(f(x)));
}

proof fn lemma_apply_all_step(text: Seq<char>, cs: Seq<(Option<Range>, Seq<char>)>)
    requires
        cs.len() > 0,
    ensures
        apply_all(text, cs) == match apply_one(text, cs[0].0, cs[0].1) {
            Ok(t) => apply_all(t, cs.drop_first()),
            Err(e) => (text, Some(e)),
        },
{
}

/// Applying one more change after a prefix that succeeded.
proof fn lemma_apply_all_snoc(text: Seq<char>, cs: Seq<(Option<Range>, Seq<char>)>)
    requires
        cs.len() > 0,
        apply_all(text, cs.drop_last()).1 is None,
    ensures
        apply_all(text, cs) == match apply_one(apply_all(text, cs.drop_last()).0, cs.last().0, cs.last().1) {
            Ok(t) => (t, None::<LsError>),
            Err(e) => (apply_all(text, cs.drop_last()).0, Some(e)),
        },
    decreases cs.len(),
{
    assert(cs.drop_last().len() > 0 ==> cs.drop_last()[0] == cs[0]);
    if cs.len() > 1 {
        match apply_one(text, cs[0].0, cs[0].1) {
            Ok(t) => {
                assert(cs.drop_last().drop_first() =~= cs.drop_first().drop_last());
                assert(cs.drop_first().last() == cs.last());
                assert(apply_all(text, cs.drop_last()) == apply_all(t, cs.drop_last().drop_first()));
                assert(apply_all(text, cs) == apply_all(t, cs.drop_first()));
                lemma_apply_all_snoc(t, cs.drop_first());
            },
            Err(e) => {},
        }
    } else {
        assert(cs.drop_last().len() == 0);
        assert(cs.drop_first().len() == 0);
        assert(cs.last() == cs[0]);
        assert(apply_all(text, cs.drop_last()) == (text, None::<LsError>));
        match apply_one(text, cs[0].0, cs[0].1) {
            Ok(t) => {
                assert(apply_all(t, cs.drop_first()) == (t, None::<LsError>));
            },
            Err(e) => {},
        }
    }
}

/// Each change whose range is in order succeeds: the offsets that points
/// resolve to are character boundaries, so the edited bytes are UTF-8.
pub proof fn lemma_ordered_change_succeeds(text: Seq<char>, range: Option<Range>, new_text: Seq<char>)
    requires
        bytes_of(text).len() <= usize::MAX,
        change_span(text, range).0 <= change_span(text, range).1,
    ensures
        apply_one(text, range, new_text) is Ok,
{
    let (s, e) = change_points(range);
    lemma_offset_is_boundary(text, s.row as int, s.column as int);
    lemma_offset_is_boundary(text, e.row as int, e.column as int);
    encode_utf8_valid_utf8(text);
    encode_utf8_valid_utf8(new_text);
    let (a, b) = change_span(text, range);
    lemma_splice_valid(bytes_of(text), bytes_of(new_text), a, b);
}

/// A change without a range replaces the whole text, whatever its size.
pub proof fn lemma_whole_document_replace(text: Seq<char>, new_text: Seq<char>)
    requires
        bytes_of(text).len() < u32::MAX,
    ensures
        apply_one(text, None, new_text) == Ok::<Seq<char>, LsError>(new_text),
{
    let b = bytes_of(text);
    lemma_table_starts_at_zero(text);
    lemma_clamps_to_end(text);
    assert(change_span(text, None) == (0int, b.len() as int));
    encode_utf8_valid_utf8(new_text);
    assert(splice(b, bytes_of(new_text), 0, b.len() as int) =~= bytes_of(new_text));
    encode_utf8_decode_utf8(new_text);
}

/// Replacing a range by the bytes it already holds leaves the text as it was.
pub proof fn lemma_same_text_replace(text: Seq<char>, range: Option<Range>, new_text: Seq<char>)
    requires
        bytes_of(text).len() <= usize::MAX,
        change_span(text, range).0 <= change_span(text, range).1,
        bytes_of(new_text) == bytes_of(text).subrange(change_span(text, range).0, change_span(text, range).1),
    ensures
        apply_one(text, range, new_text) == Ok::<Seq<char>, LsError>(text),
{
    let (s, e) = change_points(range);
    lemma_offset_is_boundary(text, s.row as int, s.column as int);
    lemma_offset_is_boundary(text, e.row as int, e.column as int);
    let b = bytes_of(text);
    let (a, c) = change_span(text, range);
    assert(splice(b, bytes_of(new_text), a, c) =~= b);
    encode_utf8_valid_utf8(text);
    encode_utf8_decode_utf8(text);
}

/// The change in byte length that the changes make, each measured in the text
/// that change sees, up to the first that fails.
pub open spec fn length_delta(text: Seq<char>, cs: Seq<(Option<Range>, Seq<char>)>) -> int
    decreases cs.len(),
{
    if cs.len() == 0 {
        0
    } else {
        match apply_one(text, cs[0].0, cs[0].1) {
            Ok(t) => bytes_of(cs[0].1).len() - (change_span(text, cs[0].0).1 - change_span(text, cs[0].0).0)
                + length_delta(t, cs.drop_first()),
            Err(_) => 0,
        }
    }
}

/// After a batch of changes the text has grown by the length of each
/// replacement less the length of the bytes it replaced.
pub proof fn lemma_batch_length(text: Seq<char>, cs: Seq<(Option<Range>, Seq<char>)>)
    ensures
        bytes_of(apply_all(text, cs).0).len() == bytes_of(text).len() + length_delta(text, cs),
    decreases cs.len(),
{
    if cs.len() > 0 {
        match apply_one(text, cs[0].0, cs[0].1) {
            Ok(t) => {
                let (a, b) = change_span(text, cs[0].0);
                let spliced = splice(bytes_of(text), bytes_of(cs[0].1), a, b);
                vstd::utf8::decode_utf8_encode_utf8(spliced);
                lemma_batch_length(t, cs.drop_first());
            },
            Err(_) => {},
        }
    }
}

/// A batch whose changes can all be made, on a document with a tree, that
/// ends with a tree succeeded: the text is the changes composed in order, and
/// its byte length grew by each replacement less the bytes it replaced.
pub proof fn lemma_batch_with_trees(d: TextDocument, d2: TextDocument, cs: Seq<(Option<Range>, Seq<char>)>, r: Result<(), LsError>)
    requires
        reparsed(d, d2, cs, r),
        d.syntax_tree is Some,
        d2.syntax_tree is Some,
        apply_all(d.source.text(), cs).1 is None,
    ensures
        r is Ok,
        d2.source.text() == apply_all(d.source.text(), cs).0,
        bytes_of(d2.source.text()).len() == bytes_of(d.source.text()).len() + length_delta(d.source.text(), cs),
{
    lemma_batch_length(d.source.text(), cs);
}

/// A change without a range, on a document with a tree that keeps one,
/// replaces the whole text whatever its size.
pub proof fn lemma_reparse_whole_document(d: TextDocument, d2: TextDocument, t: Seq<char>, r: Result<(), LsError>)
    requires
        reparsed(d, d2, seq![(None::<Range>, t)], r),
        d.syntax_tree is Some,
        d2.syntax_tree is Some,
        bytes_of(d.source.text()).len() < u32::MAX,
    ensures
        r is Ok,
        d2.source.text() == t,
{
    let cs = seq![(None::<Range>, t)];
    lemma_whole_document_replace(d.source.text(), t);
    assert(cs.drop_first().len() == 0);
    assert(apply_all(d.source.text(), cs) == apply_all(t, cs.drop_first()));
}

} // verus!
