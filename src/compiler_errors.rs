use vstd::prelude::*;
use vstd::string::StringExecFns;
use vstd::utf8::{
    decode_utf8, encode_utf8_valid_utf8, is_char_boundary, length_of_first_scalar, pop_first_scalar,
    valid_utf8,
};

use crate::diagnostic::{Diagnostic, DiagnosticView, Position, Range, Severity};
use crate::paths::str_eq;
use crate::position::bytes_of;
use crate::syntax::{cut, cuttable};

verus! {

broadcast use vstd::seq::group_seq_axioms, vstd::std_specs::vec::group_vec_axioms;

/// The classes of bytes that the fields of a record are made of.
pub enum ByteClass {
    Space,
    Letter,
    Digit,
    PathByte,
    NotNewline,
}

pub open spec fn in_class(c: u8, k: ByteClass) -> bool {
    match k {
        ByteClass::Space => c == 32 || c == 9 || c == 10 || c == 11 || c == 12 || c == 13,
        ByteClass::Letter => (65 <= c <= 90) || (97 <= c <= 122),
        ByteClass::Digit => 48 <= c <= 57,
        ByteClass::PathByte => c != 34 && c != 10,
        ByteClass::NotNewline => c != 10,
    }
}

/// The end of the longest run of bytes of class `k` that starts at `i`.
pub open spec fn run_end(b: Seq<u8>, i: int, k: ByteClass) -> int
    decreases b.len() - i,
{
    if 0 <= i < b.len() && in_class(b[i], k) {
        run_end(b, i + 1, k)
    } else {
        i
    }
}

/// The value of a string of decimal digits.
pub open spec fn digits_value(d: Seq<u8>) -> int
    decreases d.len(),
{
    if d.len() == 0 {
        0
    } else {
        digits_value(d.drop_last()) * 10 + (d.last() - 48)
    }
}

/// The byte at `i` is `c`.
pub open spec fn byte_at(b: Seq<u8>, i: int, c: u8) -> bool {
    0 <= i < b.len() && b[i] == c
}

/// A record of the compiler's error file, as read from one line.
pub struct CompilerRecord {
    pub severity: String,
    pub code: i32,
    pub path: String,
    pub line: u32,
    pub column_start: u32,
    pub column_end: u32,
    pub message: String,
}

/// The fields of a record line: the severity, code, path, line, the two
/// columns and the message, as byte ranges `(start, end)` of the line.
pub struct RecordFields {
    pub severity: (int, int),
    pub code: (int, int),
    pub path: (int, int),
    pub line: (int, int),
    pub column_start: (int, int),
    pub column_end: (int, int),
    pub message: (int, int),
}

/// The line starts with one of the three record markers.
pub open spec fn has_marker(b: Seq<u8>) -> bool {
    b.len() >= 3 && (
        (b[0] == 62 && b[1] == 62 && b[2] == 62)
        || (b[0] == 42 && b[1] == 42 && b[2] == 42)
        || (b[0] == 45 && b[1] == 45 && b[2] == 45))
}

/// Where the fields of a record line lie, if the line is one:
/// `marker space severity space code space "path" space Line space
/// line(column,column): message`, spaces being one or more white-space bytes.
pub open spec fn record_fields(b: Seq<u8>) -> Option<RecordFields> {
    let s1 = run_end(b, 3, ByteClass::Space);
    let sev = run_end(b, s1, ByteClass::Letter);
    let s2 = run_end(b, sev, ByteClass::Space);
    let code = run_end(b, s2, ByteClass::Digit);
    let s3 = run_end(b, code, ByteClass::Space);
    let path = run_end(b, s3 + 1, ByteClass::PathByte);
    let s4 = run_end(b, path + 1, ByteClass::Space);
    let s5 = run_end(b, s4 + 4, ByteClass::Space);
    let line = run_end(b, s5, ByteClass::Digit);
    let c1 = run_end(b, line + 1, ByteClass::Digit);
    let c2 = run_end(b, c1 + 1, ByteClass::Digit);
    if has_marker(b) && s1 > 3 && sev > s1 && s2 > sev && code > s2 && s3 > code
        && byte_at(b, s3, 34) && byte_at(b, path, 34) && s4 > path + 1
        && byte_at(b, s4, 76) && byte_at(b, s4 + 1, 105) && byte_at(b, s4 + 2, 110) && byte_at(b, s4 + 3, 101)
        && s5 > s4 + 4 && line > s5 && byte_at(b, line, 40) && c1 > line + 1 && byte_at(b, c1, 44)
        && c2 > c1 + 1 && byte_at(b, c2, 41) && byte_at(b, c2 + 1, 58) && byte_at(b, c2 + 2, 32) {
        Some(RecordFields {
            severity: (s1, sev),
            code: (s2, code),
            path: (s3 + 1, path),
            line: (s5, line),
            column_start: (line + 1, c1),
            column_end: (c1 + 1, c2),
            message: (c2 + 3, b.len() as int),
        })
    } else {
        None
    }
}

pub open spec fn field_value(b: Seq<u8>, f: (int, int)) -> int {
    digits_value(b.subrange(f.0, f.1))
}

pub open spec fn field_text(b: Seq<u8>, f: (int, int)) -> Seq<char> {
    decode_utf8(b.subrange(f.0, f.1))
}

/// The numbers of the record a line holds (code, line, first and last
/// column), where its fields are in place, the numbers in range, and the path
/// and message cut at character boundaries.
pub open spec fn record_numbers(line: Seq<char>) -> Option<(i32, u32, u32, u32)> {
    let b = bytes_of(line);
    match record_fields(b) {
        Some(f) => if field_value(b, f.code) <= i32::MAX && field_value(b, f.line) <= u32::MAX
            && field_value(b, f.column_start) <= u32::MAX && field_value(b, f.column_end) <= u32::MAX
            && cuttable(b, f.path.0, f.path.1) && cuttable(b, f.message.0, f.message.1) {
            Some((
                field_value(b, f.code) as i32,
                field_value(b, f.line) as u32,
                field_value(b, f.column_start) as u32,
                field_value(b, f.column_end) as u32,
            ))
        } else {
            None
        },
        None => None,
    }
}

/// `r` is the record that `line` holds.
pub open spec fn is_record_of(r: CompilerRecord, line: Seq<char>) -> bool {
    let b = bytes_of(line);
    &&& record_numbers(line) == Some((r.code, r.line, r.column_start, r.column_end))
    &&& record_fields(b) matches Some(f)
    &&& r.severity@ == field_text(b, f.severity)
    &&& r.path@ == field_text(b, f.path)
    &&& r.message@ == field_text(b, f.message)
}

fn class_holds(c: u8, k: &ByteClass) -> (r: bool)
    ensures
        r == in_class(c, *k),
{
    match k {
        ByteClass::Space => c == 32 || c == 9 || c == 10 || c == 11 || c == 12 || c == 13,
        ByteClass::Letter => (65 <= c && c <= 90) || (97 <= c && c <= 122),
        ByteClass::Digit => 48 <= c && c <= 57,
        ByteClass::PathByte => c != 34 && c != 10,
        ByteClass::NotNewline => c != 10,
    }
}

fn skip(b: &[u8], i: usize, k: ByteClass) -> (r: usize)
    requires
        i <= b@.len(),
    ensures
        r as int == run_end(b@, i as int, k),
        i <= r <= b@.len(),
{
    let mut j = i;
    while j < b.len() && class_holds(b[j], &k)
        invariant
            i <= j <= b@.len(),
            run_end(b@, i as int, k) == run_end(b@, j as int, k),
        decreases b@.len() - j,
    {
        j = j + 1;
    }
    j
}

fn byte_is(b: &[u8], i: usize, c: u8) -> (r: bool)
    ensures
        r == byte_at(b@, i as int, c),
{
    i < b.len() && b[i] == c
}

/// The value of the digits `b[s..e]`, where it is at most `max`.
fn read_number(b: &[u8], s: usize, e: usize, max: u64) -> (r: Option<u64>)
    requires
        s <= e <= b@.len(),
        forall|k: int| s <= k < e ==> 48 <= #[trigger] b@[k] <= 57,
        9 <= max <= u32::MAX,
    ensures
        match r {
            Some(v) => v == digits_value(b@.subrange(s as int, e as int)) && v <= max,
            None => digits_value(b@.subrange(s as int, e as int)) > max,
        },
{
    let mut v: u64 = 0;
    let mut i = s;
    while i < e
        invariant
            s <= i <= e <= b@.len(),
            forall|k: int| s <= k < e ==> 48 <= #[trigger] b@[k] <= 57,
            v == digits_value(b@.subrange(s as int, i as int)),
            v <= max,
            9 <= max <= u32::MAX,
        decreases e - i,
    {
        let d = (b[i] - 48) as u64;
        proof {
            assert(b@.subrange(s as int, i + 1).drop_last() =~= b@.subrange(s as int, i as int));
        }
        if v > (max - d) / 10 {
            proof {
                lemma_digits_grow(b@.subrange(s as int, e as int), (i - s) as int);
                assert(b@.subrange(s as int, e as int).subrange(0, i - s + 1) =~= b@.subrange(s as int, i + 1));
            }
            return None;
        }
        assert(v * 10 + d <= max) by (nonlinear_arith)
            requires
                v <= (max - d) / 10,
                d <= 9,
                d <= max,
        ;
        v = v * 10 + d;
        i = i + 1;
    }
    Some(v)
}

/// A longer prefix of digits has at least the value of a shorter one.
proof fn lemma_digits_grow(d: Seq<u8>, n: int)
    requires
        0 <= n < d.len(),
        forall|k: int| 0 <= k < d.len() ==> 48 <= #[trigger] d[k] <= 57,
    ensures
        digits_value(d) >= digits_value(d.subrange(0, n + 1)),
    decreases d.len(),
{
    lemma_digits_nonneg(d);
    if n + 1 < d.len() {
        assert(d.drop_last().subrange(0, n + 1) =~= d.subrange(0, n + 1));
        lemma_digits_grow(d.drop_last(), n);
        lemma_digits_nonneg(d.drop_last());
    } else {
        assert(d.subrange(0, n + 1) =~= d);
    }
}

proof fn lemma_digits_nonneg(d: Seq<u8>)
    requires
        forall|k: int| 0 <= k < d.len() ==> 48 <= #[trigger] d[k] <= 57,
    ensures
        digits_value(d) >= 0,
    decreases d.len(),
{
    if d.len() > 0 {
        lemma_digits_nonneg(d.drop_last());
    }
}

proof fn lemma_run_class(b: Seq<u8>, i: int, k: ByteClass)
    requires
        0 <= i <= b.len(),
    ensures
        i <= run_end(b, i, k) <= b.len(),
        forall|j: int| i <= j < run_end(b, i, k) ==> in_class(#[trigger] b[j], k),
        run_end(b, i, k) < b.len() ==> !in_class(b[run_end(b, i, k)], k),
    decreases b.len() - i,
{
    if i < b.len() && in_class(b[i], k) {
        lemma_run_class(b, i + 1, k);
    }
}

/// Reads the record a line of an error file holds, if it holds one.
pub fn parse_record(line: &str) -> (r: Option<CompilerRecord>)
    ensures
        match r {
            Some(x) => is_record_of(x, line@),
            None => record_numbers(line@) is None,
        },
{
    let b = line.as_bytes();
    let ghost bs = b@;
    let n = b.len();
    if n < 3 {
        return None;
    }
    if !((b[0] == 62 && b[1] == 62 && b[2] == 62) || (b[0] == 42 && b[1] == 42 && b[2] == 42) || (b[0] == 45 && b[1] == 45 && b[2] == 45)) {
        return None;
    }
    let s1 = skip(b, 3, ByteClass::Space);
    let sev = skip(b, s1, ByteClass::Letter);
    let s2 = skip(b, sev, ByteClass::Space);
    let code = skip(b, s2, ByteClass::Digit);
    let s3 = skip(b, code, ByteClass::Space);
    if !(s1 > 3 && sev > s1 && s2 > sev && code > s2 && s3 > code && byte_is(b, s3, 34)) {
        return None;
    }
    let path = skip(b, s3 + 1, ByteClass::PathByte);
    if !byte_is(b, path, 34) {
        return None;
    }
    let s4 = skip(b, path + 1, ByteClass::Space);
    if !(s4 > path + 1 && byte_is(b, s4, 76) && byte_is(b, s4 + 1, 105) && byte_is(b, s4 + 2, 110) && byte_is(b, s4 + 3, 101)) {
        return None;
    }
    let s5 = skip(b, s4 + 4, ByteClass::Space);
    let ln = skip(b, s5, ByteClass::Digit);
    if !(s5 > s4 + 4 && ln > s5 && byte_is(b, ln, 40)) {
        return None;
    }
    let c1 = skip(b, ln + 1, ByteClass::Digit);
    if !(c1 > ln + 1 && byte_is(b, c1, 44)) {
        return None;
    }
    let c2 = skip(b, c1 + 1, ByteClass::Digit);
    if !(c2 > c1 + 1 && byte_is(b, c2, 41) && byte_is(b, c2 + 1, 58) && byte_is(b, c2 + 2, 32)) {
        return None;
    }
    let ghost f = record_fields(bs)->0;
    assert(record_fields(bs) is Some);
    proof {
        lemma_run_class(bs, s1 as int, ByteClass::Letter);
        lemma_run_class(bs, s2 as int, ByteClass::Digit);
        lemma_run_class(bs, s5 as int, ByteClass::Digit);
        lemma_run_class(bs, ln + 1, ByteClass::Digit);
        lemma_run_class(bs, c1 + 1, ByteClass::Digit);
    }
    let code_v = match read_number(b, s2, code, 0x7fff_ffff) {
        Some(v) => v,
        None => return None,
    };
    let line_v = match read_number(b, s5, ln, 0xffff_ffff) {
        Some(v) => v,
        None => return None,
    };
    let cs_v = match read_number(b, ln + 1, c1, 0xffff_ffff) {
        Some(v) => v,
        None => return None,
    };
    let ce_v = match read_number(b, c1 + 1, c2, 0xffff_ffff) {
        Some(v) => v,
        None => return None,
    };
    let path_s = match cut(line, s3 + 1, path) {
        Some(p) => p,
        None => return None,
    };
    let message_s = match cut(line, c2 + 3, n) {
        Some(m) => m,
        None => return None,
    };
    let severity_s = match cut(line, s1, sev) {
        Some(x) => x,
        None => {
            proof {
                lemma_ascii_cuttable(line@, s1 as int, sev as int);
            }
            return None;
        },
    };
    Some(CompilerRecord {
        severity: severity_s.to_string(),
        code: code_v as i32,
        path: path_s.to_string(),
        line: line_v as u32,
        column_start: cs_v as u32,
        column_end: ce_v as u32,
        message: message_s.to_string(),
    })
}

/// A run of letters followed by a space cuts at character boundaries.
proof fn lemma_ascii_cuttable(line: Seq<char>, s: int, e: int)
    requires
        0 <= s < e < bytes_of(line).len(),
        forall|j: int| s <= j < e ==> in_class(#[trigger] bytes_of(line)[j], ByteClass::Letter),
        in_class(bytes_of(line)[e], ByteClass::Space),
    ensures
        cuttable(bytes_of(line), s, e),
{
    let b = bytes_of(line);
    vstd::utf8::encode_utf8_valid_utf8(line);
    vstd::utf8::is_char_boundary_iff_not_is_continuation_byte(b, s);
    assert(in_class(b[s], ByteClass::Letter));
    vstd::utf8::valid_utf8_split(b, s);
    let rest = b.subrange(s, b.len() as int);
    assert(rest[e - s] == b[e]);
    vstd::utf8::is_char_boundary_iff_not_is_continuation_byte(rest, e - s);
}

/// The diagnostic severity a record's severity word names.
pub open spec fn severity_of(word: Seq<char>) -> Severity {
    if word == "Info"@ {
        Severity::Information
    } else if word == "Warning"@ {
        Severity::Warning
    } else {
        Severity::Error
    }
}

/// The diagnostic of a record whose line is at least one: zero-based line, the
/// record's columns, its code, and the compiler as source.
pub open spec fn record_diagnostic(r: CompilerRecord) -> DiagnosticView {
    DiagnosticView {
        range: Range {
            start: Position { line: (r.line - 1) as u32, character: r.column_start },
            end: Position { line: (r.line - 1) as u32, character: r.column_end },
        },
        severity: severity_of(r.severity@),
        code: Some(r.code),
        source: "ccsc-compiler"@,
        message: r.message@,
    }
}

/// The path and diagnostic of a record; none for a record of line zero, which
/// names no line.
pub fn record_to_diagnostic(r: &CompilerRecord) -> (d: Option<(String, Diagnostic)>)
    ensures
        r.line == 0 ==> d is None,
        r.line > 0 ==> (d matches Some((p, x)) && p@ == r.path@ && x@ == record_diagnostic(*r)),
{
    if r.line == 0 {
        return None;
    }
    let severity = if str_eq(r.severity.as_str(), "Info") {
        Severity::Information
    } else if str_eq(r.severity.as_str(), "Warning") {
        Severity::Warning
    } else {
        Severity::Error
    };
    let line = r.line - 1;
    Some((r.path.clone(), Diagnostic {
        range: Range {
            start: Position { line, character: r.column_start },
            end: Position { line, character: r.column_end },
        },
        severity,
        code: Some(r.code),
        source: String::from_str("ccsc-compiler"),
        message: r.message.clone(),
    }))
}

/// The path and diagnostic that a line of an error file gives, if any.
pub open spec fn line_diagnostic(line: Seq<char>) -> Option<(Seq<char>, DiagnosticView)> {
    let b = bytes_of(line);
    match record_numbers(line) {
        Some((code, ln, c1, c2)) => match record_fields(b) {
            Some(f) => if ln == 0 {
                None
            } else {
                Some((field_text(b, f.path), DiagnosticView {
                    range: Range {
                        start: Position { line: (ln - 1) as u32, character: c1 },
                        end: Position { line: (ln - 1) as u32, character: c2 },
                    },
                    severity: severity_of(field_text(b, f.severity)),
                    code: Some(code),
                    source: "ccsc-compiler"@,
                    message: field_text(b, f.message),
                }))
            },
            None => None,
        },
        None => None,
    }
}

/// The diagnostic a line of an error file gives, with the path it is about.
pub fn parse_error_line(line: &str) -> (r: Option<(String, Diagnostic)>)
    ensures
        match line_diagnostic(line@) {
            Some((p, d)) => r matches Some((rp, rd)) && rp@ == p && rd@ == d,
            None => r is None,
        },
{
    match parse_record(line) {
        Some(rec) => record_to_diagnostic(&rec),
        None => None,
    }
}

/// The byte ranges of the lines of a text from `start` on: the pieces between
/// newlines, less a carriage return just before a newline, with no piece after
/// a final newline.
pub open spec fn line_spans(b: Seq<u8>, start: int) -> Seq<(int, int)>
    decreases b.len() - start,
{
    let nl = run_end(b, start, ByteClass::NotNewline);
    if start < 0 || start >= b.len() || nl < start {
        Seq::empty()
    } else {
        let e = if nl < b.len() && nl > start && b[nl - 1] == 13 {
            nl - 1
        } else {
            nl
        };
        if nl >= b.len() {
            seq![(start, e)]
        } else {
            seq![(start, e)] + line_spans(b, nl + 1)
        }
    }
}

/// The paths and diagnostics that the given lines of a text give, in order.
pub open spec fn spans_diagnostics(b: Seq<u8>, spans: Seq<(int, int)>) -> Seq<(Seq<char>, DiagnosticView)>
    decreases spans.len(),
{
    if spans.len() == 0 {
        Seq::empty()
    } else {
        spans_diagnostics(b, spans.drop_last()) + match line_diagnostic(decode_utf8(b.subrange(spans.last().0, spans.last().1))) {
            Some(x) => seq![x],
            None => Seq::empty(),
        }
    }
}

pub open spec fn entry_views(v: Seq<(String, Diagnostic)>) -> Seq<(Seq<char>, DiagnosticView)> {
    v.map_values(|e: (String, Diagnostic)| (e.0@, e.1@))
}

/// In UTF-8, the byte after an ASCII byte that starts a character starts one too.
proof fn lemma_boundary_after_ascii(b: Seq<u8>, i: int)
    requires
        valid_utf8(b),
        is_char_boundary(b, i),
        0 <= i < b.len(),
        b[i] < 0x80,
    ensures
        is_char_boundary(b, i + 1),
    decreases b.len(),
{
    let l = length_of_first_scalar(b);
    let rest = pop_first_scalar(b);
    if i == 0 {
        assert(l == 1);
        assert(is_char_boundary(rest, 0));
    } else {
        assert(is_char_boundary(rest, i - l));
        assert(i - l >= 0) by {
            if i - l < 0 {
                assert(!is_char_boundary(rest, i - l));
            }
        }
        assert(rest[i - l] == b[i]);
        lemma_boundary_after_ascii(rest, i - l);
    }
}

/// The paths and diagnostics of all record lines of an error file, in order.
pub fn parse_error_text(contents: &str) -> (r: Vec<(String, Diagnostic)>)
    ensures
        entry_views(r@) == spans_diagnostics(bytes_of(contents@), line_spans(bytes_of(contents@), 0)),
{
    let b = contents.as_bytes();
    let ghost bs = b@;
    let n = b.len();
    let mut out: Vec<(String, Diagnostic)> = Vec::new();
    let mut start: usize = 0;
    let ghost done: Seq<(int, int)> = Seq::empty();
    proof {
        encode_utf8_valid_utf8(contents@);
        vstd::utf8::is_char_boundary_start_end_of_seq(bs);
        assert(done + line_spans(bs, 0) =~= line_spans(bs, 0));
    }
    while start < n
        invariant
            bs == b@,
            bs == bytes_of(contents@),
            valid_utf8(bs),
            n == bs.len(),
            start <= n,
            is_char_boundary(bs, start as int),
            done + line_spans(bs, start as int) == line_spans(bs, 0),
            entry_views(out@) == spans_diagnostics(bs, done),
        decreases n - start,
    {
        let nl = skip(b, start, ByteClass::NotNewline);
        let e = if nl < n && nl > start && b[nl - 1] == 13 { nl - 1 } else { nl };
        let ghost span = (start as int, e as int);
        proof {
            lemma_run_class(bs, start as int, ByteClass::NotNewline);
            assert(line_spans(bs, start as int) == seq![span] + line_spans(bs, nl + 1)) by {
                if nl >= n {
                    assert(line_spans(bs, nl + 1) =~= Seq::<(int, int)>::empty());
                    assert(seq![span] + line_spans(bs, nl + 1) =~= seq![span]);
                }
            }
            assert(done + line_spans(bs, start as int) =~= done.push(span) + line_spans(bs, nl + 1));
            vstd::utf8::valid_utf8_split(bs, start as int);
            let rest = bs.subrange(start as int, n as int);
            if e < n {
                assert(rest[e - start] == bs[e as int]);
                vstd::utf8::is_char_boundary_iff_not_is_continuation_byte(rest, e - start);
            } else {
                vstd::utf8::is_char_boundary_start_end_of_seq(rest);
            }
            if nl < n {
                vstd::utf8::is_char_boundary_iff_not_is_continuation_byte(bs, nl as int);
                lemma_boundary_after_ascii(bs, nl as int);
            } else {
                vstd::utf8::is_char_boundary_start_end_of_seq(bs);
            }
        }
        let piece = match cut(contents, start, e) {
            Some(p) => p,
            None => {
                assert(false);
                return out;
            },
        };
        match parse_error_line(piece) {
            Some(x) => {
                out.push(x);
            },
            None => {},
        }
        proof {
            let d2 = done.push(span);
            assert(d2.drop_last() =~= done);
            assert(d2.last() == span);
            assert(entry_views(out@) =~= spans_diagnostics(bs, d2));
            done = d2;
        }
        start = if nl < n { nl + 1 } else { n };
        proof {
            if nl >= n {
                assert(line_spans(bs, nl + 1) =~= Seq::<(int, int)>::empty());
                assert(line_spans(bs, n as int) =~= Seq::<(int, int)>::empty());
            }
        }
    }
    proof {
        assert(line_spans(bs, start as int) =~= Seq::<(int, int)>::empty());
        assert(done + line_spans(bs, start as int) =~= done);
    }
    out
}

} // verus!
