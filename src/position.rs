use vstd::prelude::*;
use vstd::utf8::{
    encode_utf8, encode_utf8_valid_utf8, is_char_boundary,
    is_char_boundary_iff_not_is_continuation_byte, is_continuation_byte,
};

use crate::error::LsError;

verus! {

/// A zero-based location in a text: a row and a byte column within that row.
#[derive(Clone, Copy, Debug, PartialEq, Eq, Structural)]
pub struct Point {
    pub row: usize,
    pub column: usize,
}

impl Point {
    pub fn new(row: usize, column: usize) -> (r: Point)
        ensures
            r == (Point { row, column }),
    {
        Point { row, column }
    }
}

/// The UTF-8 bytes of a text.
pub open spec fn bytes_of(text: Seq<char>) -> Seq<u8> {
    encode_utf8(text)
}

/// The byte that begins a new character (any byte but a continuation byte).
pub open spec fn starts_char(b: u8) -> bool {
    !is_continuation_byte(b)
}

/// The rows completed and the row being filled after reading the first `n`
/// bytes: each character start is recorded in the current row, and a newline
/// closes the row it stands in.
pub open spec fn scan(b: Seq<u8>, n: nat) -> (Seq<Seq<usize>>, Seq<usize>)
    decreases n,
{
    if n == 0 {
        (Seq::empty(), Seq::empty())
    } else {
        let prev = scan(b, (n - 1) as nat);
        let i = n - 1;
        let cur = if starts_char(b[i]) {
            prev.1.push(i as usize)
        } else {
            prev.1
        };
        if b[i] == 10u8 {
            (prev.0.push(cur), Seq::empty())
        } else {
            (prev.0, cur)
        }
    }
}

/// The position table of a text: for each row the byte offsets of the
/// characters on it; the last row also holds the end-of-file offset.
pub open spec fn table_of(b: Seq<u8>) -> Seq<Seq<usize>> {
    let s = scan(b, b.len());
    s.0.push(s.1.push(b.len() as usize))
}

/// Offset of `(row, column)` with clamping: a row past the end means the end of
/// the last row, a column past the end of its row means the row's last offset.
pub open spec fn offset_of(t: Seq<Seq<usize>>, row: int, column: int) -> usize {
    let r = if row < t.len() {
        row
    } else {
        t.len() - 1
    };
    let c = if row < t.len() && column < t[r].len() {
        column
    } else {
        t[r].len() - 1
    };
    t[r][c]
}

/// The offset `b` is stored in the table.
pub open spec fn in_table(t: Seq<Seq<usize>>, b: int) -> bool {
    exists|r: int, c: int| 0 <= r < t.len() && 0 <= c < t[r].len() && t[r][c] == b
}

/// The point whose stored offset is `b`.
pub open spec fn holds_at(t: Seq<Seq<usize>>, p: Point, b: int) -> bool {
    &&& p.row < t.len()
    &&& p.column < t[p.row as int].len()
    &&& t[p.row as int][p.column as int] == b
}

/// The last stored offset of the table: the end of the text.
pub open spec fn last_offset(t: Seq<Seq<usize>>) -> usize {
    t.last().last()
}

/// The point of the end-of-file offset.
pub open spec fn end_point(t: Seq<Seq<usize>>) -> Point {
    Point { row: (t.len() - 1) as usize, column: (t.last().len() - 1) as usize }
}

/// The point of byte offset `b`: the end of the text if `b` lies past it, the
/// point where `b` is stored if it is a character start, and none otherwise.
pub open spec fn position_of(t: Seq<Seq<usize>>, b: int) -> Option<Point> {
    if b > last_offset(t) {
        Some(end_point(t))
    } else if in_table(t, b) {
        Some(choose|p: Point| holds_at(t, p, b))
    } else {
        None
    }
}

/// Rows are non-empty and the offsets increase strictly in reading order.
pub open spec fn ordered(t: Seq<Seq<usize>>) -> bool {
    &&& t.len() > 0
    &&& forall|r: int| 0 <= r < t.len() ==> #[trigger] t[r].len() > 0
    &&& forall|r1: int, c1: int, r2: int, c2: int|
        0 <= r1 < t.len() && 0 <= c1 < t[r1].len() && 0 <= r2 < t.len() && 0 <= c2 < t[r2].len()
            && (r1 < r2 || (r1 == r2 && c1 < c2)) ==> #[trigger] t[r1][c1] < #[trigger] t[r2][c2]
}

/// Every offset of the table is below `n`, the rows but the last are
/// non-empty, and the offsets increase strictly in reading order.
spec fn scan_ordered(t: Seq<Seq<usize>>, n: int) -> bool {
    &&& forall|r: int| 0 <= r < t.len() - 1 ==> #[trigger] t[r].len() > 0
    &&& forall|r: int, c: int| 0 <= r < t.len() && 0 <= c < t[r].len() ==> #[trigger] t[r][c] < n
    &&& forall|r1: int, c1: int, r2: int, c2: int|
        0 <= r1 < t.len() && 0 <= c1 < t[r1].len() && 0 <= r2 < t.len() && 0 <= c2 < t[r2].len()
            && (r1 < r2 || (r1 == r2 && c1 < c2)) ==> #[trigger] t[r1][c1] < #[trigger] t[r2][c2]
}

/// Every character start below `n` is stored in the table.
spec fn scan_covers(b: Seq<u8>, t: Seq<Seq<usize>>, n: int) -> bool {
    forall|i: int| 0 <= i < n && #[trigger] starts_char(b[i]) ==> in_table(t, i)
}

proof fn lemma_scan(b: Seq<u8>, n: nat)
    requires
        n <= b.len(),
        b.len() <= usize::MAX,
    ensures
        scan_ordered(scan(b, n).0.push(scan(b, n).1), n as int),
        scan_covers(b, scan(b, n).0.push(scan(b, n).1), n as int),
        scan(b, n).0.len() > 0 ==> scan(b, n).0.last().len() > 0,
        scan(b, n).0.len() <= n,
        forall|r: int| 0 <= r < scan(b, n).0.push(scan(b, n).1).len() ==> #[trigger] scan(b, n).0.push(scan(b, n).1)[r].len() <= n,
    decreases n,
{
    if n > 0 {
        lemma_scan(b, (n - 1) as nat);
        let prev = scan(b, (n - 1) as nat);
        let pt = prev.0.push(prev.1);
        let i = n - 1;
        let cur = if starts_char(b[i]) {
            prev.1.push(i as usize)
        } else {
            prev.1
        };
        let t1 = prev.0.push(cur);
        assert(scan_ordered(t1, n as int)) by {
            assert forall|r: int| 0 <= r < t1.len() - 1 implies #[trigger] t1[r].len() > 0 by {
                assert(t1[r] == pt[r]);
            }
            assert forall|r: int, c: int| 0 <= r < t1.len() && 0 <= c < t1[r].len() implies #[trigger] t1[r][c] < n by {
                if r < prev.0.len() || c < prev.1.len() {
                    assert(t1[r][c] == pt[r][c]);
                }
            }
            assert forall|r1: int, c1: int, r2: int, c2: int|
                0 <= r1 < t1.len() && 0 <= c1 < t1[r1].len() && 0 <= r2 < t1.len() && 0 <= c2 < t1[r2].len()
                    && (r1 < r2 || (r1 == r2 && c1 < c2)) implies #[trigger] t1[r1][c1] < #[trigger] t1[r2][c2] by {
                if r1 < prev.0.len() || c1 < prev.1.len() {
                    assert(t1[r1][c1] == pt[r1][c1]);
                }
                if r2 < prev.0.len() || c2 < prev.1.len() {
                    assert(t1[r2][c2] == pt[r2][c2]);
                }
            }
        }
        assert(scan_covers(b, t1, n as int)) by {
            assert forall|j: int| 0 <= j < n && #[trigger] starts_char(b[j]) implies in_table(t1, j) by {
                if j < i {
                    let (r, c) = choose|r: int, c: int| 0 <= r < pt.len() && 0 <= c < pt[r].len() && pt[r][c] == j;
                    assert(t1[r][c] == pt[r][c]);
                } else {
                    assert(t1[prev.0.len() as int][prev.1.len() as int] == j);
                }
            }
        }
        assert forall|r: int| 0 <= r < t1.len() implies #[trigger] t1[r].len() <= n by {
            if r < prev.0.len() {
                assert(t1[r] == pt[r]);
            } else {
                assert(pt[r] == prev.1);
            }
        }
        if b[i] == 10u8 {
            let t2 = t1.push(Seq::<usize>::empty());
            assert forall|r: int| 0 <= r < t2.len() implies #[trigger] t2[r].len() <= n by {
                if r < t1.len() {
                    assert(t2[r] == t1[r]);
                }
            }
            assert(cur.len() > 0);
            assert forall|r: int, c: int| 0 <= r < t1.len() && 0 <= c < t1[r].len() implies #[trigger] t2[r][c] == t1[r][c] by {}
            assert(scan_covers(b, t2, n as int)) by {
                assert forall|j: int| 0 <= j < n && #[trigger] starts_char(b[j]) implies in_table(t2, j) by {
                    let (r, c) = choose|r: int, c: int| 0 <= r < t1.len() && 0 <= c < t1[r].len() && t1[r][c] == j;
                    assert(t2[r][c] == t1[r][c]);
                }
            }
            assert(scan(b, n).0.push(scan(b, n).1) == t2);
        } else {
            assert(scan(b, n).0.push(scan(b, n).1) == t1);
        }
    }
}

/// The position table of any text is ordered, holds every character start, and
/// ends with the text's length.
pub proof fn lemma_table_of(b: Seq<u8>)
    requires
        b.len() <= usize::MAX,
    ensures
        ordered(table_of(b)),
        last_offset(table_of(b)) == b.len(),
        forall|i: int| 0 <= i < b.len() && #[trigger] starts_char(b[i]) ==> in_table(table_of(b), i),
        forall|i: int| 0 <= i <= b.len() && in_table(table_of(b), i) ==> (i == b.len() || starts_char(b[i])),
        table_of(b).len() <= b.len() + 1,
        forall|r: int| 0 <= r < table_of(b).len() ==> #[trigger] table_of(b)[r].len() <= b.len() + 1,
{
    lemma_scan(b, b.len());
    let s = scan(b, b.len());
    let pt = s.0.push(s.1);
    let t = table_of(b);
    let n = b.len() as int;
    assert forall|r: int| 0 <= r < t.len() implies #[trigger] t[r].len() <= n + 1 by {
        assert(pt[r].len() <= n);
        if r < t.len() - 1 {
            assert(t[r] == pt[r]);
        } else {
            assert(pt[r] == s.1);
        }
    }
    assert forall|r: int, c: int| 0 <= r < pt.len() && 0 <= c < pt[r].len() implies #[trigger] t[r][c] == pt[r][c] by {}
    assert(t[t.len() - 1][s.1.len() as int] == n);
    assert forall|r: int| 0 <= r < t.len() implies #[trigger] t[r].len() > 0 by {
        if r < t.len() - 1 {
            assert(t[r] == pt[r]);
        }
    }
    assert forall|r1: int, c1: int, r2: int, c2: int|
        0 <= r1 < t.len() && 0 <= c1 < t[r1].len() && 0 <= r2 < t.len() && 0 <= c2 < t[r2].len()
            && (r1 < r2 || (r1 == r2 && c1 < c2)) implies #[trigger] t[r1][c1] < #[trigger] t[r2][c2] by {
        if r1 < s.0.len() || c1 < s.1.len() {
            assert(t[r1][c1] == pt[r1][c1]);
        }
        if r2 < s.0.len() || c2 < s.1.len() {
            assert(t[r2][c2] == pt[r2][c2]);
        }
    }
    assert forall|i: int| 0 <= i < b.len() && #[trigger] starts_char(b[i]) implies in_table(t, i) by {
        let (r, c) = choose|r: int, c: int| 0 <= r < pt.len() && 0 <= c < pt[r].len() && pt[r][c] == i;
        assert(t[r][c] == pt[r][c]);
    }
    lemma_scan_starts(b, b.len());
    assert forall|i: int| 0 <= i <= b.len() && in_table(t, i) implies (i == b.len() || starts_char(b[i])) by {
        let (r, c) = choose|r: int, c: int| 0 <= r < t.len() && 0 <= c < t[r].len() && t[r][c] == i;
        if !(r == t.len() - 1 && c == s.1.len()) {
            assert(t[r][c] == pt[r][c]);
        }
    }
}

/// Every offset that the scan stores below `n` is a character start.
proof fn lemma_scan_starts(b: Seq<u8>, n: nat)
    requires
        n <= b.len(),
        b.len() <= usize::MAX,
    ensures
        forall|r: int, c: int| 0 <= r < scan(b, n).0.push(scan(b, n).1).len() && 0 <= c < scan(b, n).0.push(scan(b, n).1)[r].len()
            ==> starts_char(b[#[trigger] scan(b, n).0.push(scan(b, n).1)[r][c] as int]),
    decreases n,
{
    if n > 0 {
        lemma_scan_starts(b, (n - 1) as nat);
        lemma_scan(b, (n - 1) as nat);
        let prev = scan(b, (n - 1) as nat);
        let pt = prev.0.push(prev.1);
        let t = scan(b, n).0.push(scan(b, n).1);
        assert forall|r: int, c: int| 0 <= r < t.len() && 0 <= c < t[r].len() implies starts_char(b[#[trigger] t[r][c] as int]) by {
            if r < prev.0.len() || (r == prev.0.len() && c < prev.1.len()) {
                assert(t[r][c] == pt[r][c]);
            }
        }
    }
}

/// The text of a document with its position table.
pub struct TextDocumentSource {
    raw: String,
    positions: Vec<Vec<usize>>,
}

impl TextDocumentSource {
    /// The text.
    pub closed spec fn text(&self) -> Seq<char> {
        self.raw@
    }

    /// The position table.
    pub closed spec fn table(&self) -> Seq<Seq<usize>> {
        self.positions@.map_values(|r: Vec<usize>| r@)
    }

    #[verifier::type_invariant]
    spec fn inv(self) -> bool {
        &&& self.table() == table_of(bytes_of(self.raw@))
        &&& bytes_of(self.raw@).len() <= usize::MAX
    }

    /// Builds the position table of `raw` in one pass over its bytes.
    pub fn from(raw: String) -> (r: TextDocumentSource)
        ensures
            r.text() == raw@,
            r.table() == table_of(bytes_of(raw@)),
    {
        let bytes = raw.as_str().as_bytes();
        let mut positions: Vec<Vec<usize>> = Vec::new();
        let mut cur: Vec<usize> = Vec::new();
        let mut i: usize = 0;
        while i < bytes.len()
            invariant
                i <= bytes@.len(),
                bytes@ == bytes_of(raw@),
                positions@.map_values(|r: Vec<usize>| r@) == scan(bytes@, i as nat).0,
                cur@ == scan(bytes@, i as nat).1,
            decreases bytes@.len() - i,
        {
            let c = bytes[i];
            if c < 0x80 || c > 0xbf {
                cur.push(i);
            }
            if c == 10 {
                let done = cur;
                cur = Vec::new();
                positions.push(done);
            }
            i = i + 1;
            assert(positions@.map_values(|r: Vec<usize>| r@) =~= scan(bytes@, i as nat).0);
        }
        cur.push(i);
        positions.push(cur);
        assert(positions@.map_values(|r: Vec<usize>| r@) =~= table_of(bytes_of(raw@)));
        TextDocumentSource { raw, positions }
    }

    /// The table is the one of the text.
    pub fn check_table(&self)
        ensures
            self.table() == table_of(bytes_of(self.text())),
            bytes_of(self.text()).len() <= usize::MAX,
    {
        proof {
            use_type_invariant(self);
        }
    }

    /// The text.
    pub fn get_raw(&self) -> (r: &str)
        ensures
            r@ == self.text(),
    {
        self.raw.as_str()
    }

    /// The position table, row by row.
    pub fn get_positions(&self) -> (r: Vec<Vec<usize>>)
        ensures
            r@.map_values(|x: Vec<usize>| x@) == self.table(),
    {
        let mut out: Vec<Vec<usize>> = Vec::new();
        let mut i: usize = 0;
        while i < self.positions.len()
            invariant
                i <= self.positions@.len(),
                out@.len() == i,
                forall|k: int| 0 <= k < i ==> #[trigger] out@[k]@ == self.table()[k],
            decreases self.positions@.len() - i,
        {
            assert(self.table()[i as int] == self.positions@[i as int]@);
            out.push(copy_row(&self.positions[i]));
            i = i + 1;
        }
        assert(out@.map_values(|x: Vec<usize>| x@) =~= self.table());
        out
    }

    /// Number of rows of the table, the end-of-file row included.
    pub fn row_count(&self) -> (r: usize)
        ensures
            r == self.table().len(),
    {
        self.positions.len()
    }

    /// Byte offset of `point`, clamped as `offset_of` says.
    pub fn get_offset_for_point(&self, point: &Point) -> (r: Result<usize, LsError>)
        ensures
            r == Ok::<usize, LsError>(offset_of(self.table(), point.row as int, point.column as int)),
    {
        proof {
            use_type_invariant(self);
            lemma_table_of(bytes_of(self.raw@));
        }
        let row: usize;
        let mut column = point.column;
        if point.row < self.positions.len() {
            row = point.row;
        } else {
            row = self.positions.len() - 1;
            column = usize::MAX;
        }
        let row_vec = &self.positions[row];
        assert(row_vec@ == self.table()[row as int]);
        assert(row_vec@.len() > 0);
        if column < row_vec.len() {
            Ok(row_vec[column])
        } else {
            Ok(row_vec[row_vec.len() - 1])
        }
    }

    /// The point of byte offset `byte`, or `PositionOutOfRange` where `byte` lies
    /// inside a character.
    pub fn get_point_from_byte_idx(&self, byte: usize) -> (r: Result<Point, LsError>)
        ensures
            match position_of(self.table(), byte as int) {
                Some(p) => r == Ok::<Point, LsError>(p),
                None => r == Err::<Point, LsError>(LsError::PositionOutOfRange),
            },
    {
        proof {
            use_type_invariant(self);
            lemma_table_of(bytes_of(self.raw@));
        }
        let ghost t = self.table();
        let n = self.positions.len();
        let last = &self.positions[n - 1];
        assert(last@ == t[n - 1]);
        if byte > last[last.len() - 1] {
            return Ok(Point { row: n - 1, column: last.len() - 1 });
        }
        proof {
            lemma_table_starts_at_zero(self.raw@);
            assert forall|k: int| 0 <= k < n implies #[trigger] self.positions@[k]@ == t[k] by {}
        }
        // The row is the last one whose first offset is at most `byte`.
        let mut line: usize = 1;
        while line < n && self.positions[line][0] <= byte
            invariant
                1 <= line <= n,
                n == t.len(),
                ordered(t),
                t == self.table(),
                forall|k: int| 0 <= k < line ==> (#[trigger] t[k])[0] <= byte,
                forall|k: int| 0 <= k < n ==> #[trigger] self.positions@[k]@ == t[k],
            decreases n - line,
        {
            assert(self.positions@[line as int]@ == t[line as int]);
            line = line + 1;
        }
        let row = line - 1;
        let row_vec = &self.positions[row];
        assert(row_vec@ == t[row as int]);
        let mut column: usize = 0;
        while column < row_vec.len()
            invariant
                column <= row_vec@.len(),
                row_vec@ == t[row as int],
                row < t.len(),
                t == self.table(),
                ordered(t),
                byte <= last_offset(t),
                forall|c: int| 0 <= c < column ==> row_vec@[c] != byte,
            decreases row_vec@.len() - column,
        {
            if row_vec[column] == byte {
                let p = Point { row, column };
                assert(holds_at(t, p, byte as int));
                proof {
                    lemma_unique_point(t, p, byte as int);
                }
                return Ok(p);
            }
            column = column + 1;
        }
        proof {
            if in_table(t, byte as int) {
                let (r, c) = choose|r: int, c: int| 0 <= r < t.len() && 0 <= c < t[r].len() && t[r][c] == byte;
                if r < row {
                    assert(t[r][c] < t[row as int][0]);
                } else if r > row {
                    assert(t[r][0] <= t[r][c]);
                    if line < n {
                        assert(self.positions@[line as int]@ == t[line as int]);
                        assert(byte < t[line as int][0]);
                        assert(t[line as int][0] <= t[r][0]);
                    }
                } else {
                    assert(row_vec@[c] == byte);
                }
            }
        }
        Err(LsError::PositionOutOfRange)
    }
}

fn copy_row(v: &Vec<usize>) -> (r: Vec<usize>)
    ensures
        r@ == v@,
{
    let mut out: Vec<usize> = Vec::new();
    let mut i: usize = 0;
    while i < v.len()
        invariant
            i <= v@.len(),
            out@ == v@.subrange(0, i as int),
        decreases v@.len() - i,
    {
        out.push(v[i]);
        i = i + 1;
        assert(out@ =~= v@.subrange(0, i as int));
    }
    assert(v@.subrange(0, i as int) =~= v@);
    out
}

/// A text's table starts at offset zero.
pub proof fn lemma_table_starts_at_zero(text: Seq<char>)
    requires
        bytes_of(text).len() <= usize::MAX,
    ensures
        table_of(bytes_of(text))[0].len() > 0,
        table_of(bytes_of(text))[0][0] == 0,
{
    let b = bytes_of(text);
    let t = table_of(b);
    lemma_table_of(b);
    encode_utf8_valid_utf8(text);
    if b.len() == 0 {
        assert(t[0][0] == 0);
    } else {
        assert(is_char_boundary(b, 0));
        is_char_boundary_iff_not_is_continuation_byte(b, 0);
        assert(starts_char(b[0]));
        let (r, c) = choose|r: int, c: int| 0 <= r < t.len() && 0 <= c < t[r].len() && t[r][c] == 0;
        if r != 0 || c != 0 {
            assert(t[0][0] < t[r][c]);
        }
    }
}

/// In an ordered table an offset is stored at one point only.
proof fn lemma_unique_point(t: Seq<Seq<usize>>, p: Point, b: int)
    requires
        ordered(t),
        holds_at(t, p, b),
        b <= last_offset(t),
    ensures
        position_of(t, b) == Some(p),
{
    assert(in_table(t, b));
    let q = choose|q: Point| holds_at(t, q, b);
    assert(holds_at(t, q, b));
    if q != p {
        let (r1, c1, r2, c2) = (p.row as int, p.column as int, q.row as int, q.column as int);
        assert(t[r1][c1] != t[r2][c2] || (r1 == r2 && c1 == c2)) by {
            if r1 < r2 || (r1 == r2 && c1 < c2) {
                assert(t[r1][c1] < t[r2][c2]);
            } else if r2 < r1 || (r1 == r2 && c2 < c1) {
                assert(t[r2][c2] < t[r1][c1]);
            }
        }
    }
}

/// For a stored point `(row, column)` of a text's table, the point of its offset
/// is `(row, column)` again.
pub proof fn lemma_point_offset_round_trip(text: Seq<char>, row: usize, column: usize)
    requires
        bytes_of(text).len() <= usize::MAX,
        row < table_of(bytes_of(text)).len(),
        column < table_of(bytes_of(text))[row as int].len(),
    ensures
        position_of(table_of(bytes_of(text)), offset_of(table_of(bytes_of(text)), row as int, column as int) as int)
            == Some(Point { row, column }),
{
    let t = table_of(bytes_of(text));
    lemma_table_of(bytes_of(text));
    let p = Point { row, column };
    let last_r = t.len() - 1;
    let last_c = t[last_r].len() - 1;
    if row as int != last_r || column as int != last_c {
        assert(t[row as int][column as int] < t[last_r][last_c]);
    }
    lemma_unique_point(t, p, t[row as int][column as int] as int);
}

/// For a byte offset on a character boundary of a text, the offset of its
/// point is the offset itself.
pub proof fn lemma_offset_point_round_trip(text: Seq<char>, b: int)
    requires
        bytes_of(text).len() <= usize::MAX,
        is_char_boundary(bytes_of(text), b),
    ensures
        position_of(table_of(bytes_of(text)), b) is Some,
        offset_of(
            table_of(bytes_of(text)),
            position_of(table_of(bytes_of(text)), b)->0.row as int,
            position_of(table_of(bytes_of(text)), b)->0.column as int,
        ) == b,
{
    let bytes = bytes_of(text);
    let t = table_of(bytes);
    lemma_table_of(bytes);
    encode_utf8_valid_utf8(text);
    assert(0 <= b <= bytes.len()) by {
        reveal_with_fuel(is_char_boundary, 2);
    }
    if b < bytes.len() {
        is_char_boundary_iff_not_is_continuation_byte(bytes, b);
        assert(starts_char(bytes[b]));
        assert(in_table(t, b));
    } else {
        let last_r = t.len() - 1;
        assert(t[last_r][t[last_r].len() - 1] == b);
        assert(in_table(t, b));
    }
    let (r, c) = choose|r: int, c: int| 0 <= r < t.len() && 0 <= c < t[r].len() && t[r][c] == b;
    assert(holds_at(t, Point { row: r as usize, column: c as usize }, b));
    let p = choose|p: Point| holds_at(t, p, b);
    assert(position_of(t, b) == Some(p));
}

/// A point past the last row and column, as `(u32::MAX, u32::MAX)` is for any
/// text shorter than that, resolves to the end of the text.
pub proof fn lemma_clamps_to_end(text: Seq<char>)
    requires
        bytes_of(text).len() < u32::MAX,
    ensures
        offset_of(table_of(bytes_of(text)), u32::MAX as int, u32::MAX as int) == bytes_of(text).len(),
{
    let t = table_of(bytes_of(text));
    lemma_table_of(bytes_of(text));
    lemma_row_count(bytes_of(text), bytes_of(text).len());
}

/// The scan closes at most one row per byte.
proof fn lemma_row_count(b: Seq<u8>, n: nat)
    requires
        n <= b.len(),
    ensures
        scan(b, n).0.len() <= n,
    decreases n,
{
    if n > 0 {
        lemma_row_count(b, (n - 1) as nat);
    }
}

/// A text of one byte that is not a newline has a single row holding offsets
/// zero and one: the start of the row maps to zero, its end to one, and offset
/// one to the point `(0, 1)`.
pub proof fn lemma_one_byte_text(text: Seq<char>)
    requires
        bytes_of(text).len() == 1,
        bytes_of(text)[0] != 10u8,
    ensures
        table_of(bytes_of(text)) == seq![seq![0usize, 1usize]],
        offset_of(table_of(bytes_of(text)), 0, 0) == 0,
        offset_of(table_of(bytes_of(text)), 0, usize::MAX as int) == 1,
        position_of(table_of(bytes_of(text)), 1) == Some(Point { row: 0, column: 1 }),
{
    let b = bytes_of(text);
    encode_utf8_valid_utf8(text);
    assert(is_char_boundary(b, 0));
    is_char_boundary_iff_not_is_continuation_byte(b, 0);
    assert(scan(b, 0) == (Seq::<Seq<usize>>::empty(), Seq::<usize>::empty()));
    assert(scan(b, 1) == (Seq::<Seq<usize>>::empty(), seq![0usize]));
    let t = table_of(b);
    assert(seq![0usize].push(1usize) =~= seq![0usize, 1usize]);
    assert(t[0] == seq![0usize, 1usize]);
    assert(t =~= seq![seq![0usize, 1usize]]);
    lemma_table_of(b);
    lemma_unique_point(t, Point { row: 0, column: 1 }, 1);
}

/// Every offset that a point resolves to lies on a character boundary of the
/// text, at most its length.
pub proof fn lemma_offset_is_boundary(text: Seq<char>, row: int, column: int)
    requires
        bytes_of(text).len() <= usize::MAX,
        row >= 0,
        column >= 0,
    ensures
        offset_of(table_of(bytes_of(text)), row, column) <= bytes_of(text).len(),
        is_char_boundary(bytes_of(text), offset_of(table_of(bytes_of(text)), row, column) as int),
{
    let b = bytes_of(text);
    let t = table_of(b);
    lemma_table_of(b);
    encode_utf8_valid_utf8(text);
    let r = if row < t.len() { row } else { t.len() - 1 };
    let c = if row < t.len() && column < t[r].len() { column } else { t[r].len() - 1 };
    let o = t[r][c] as int;
    let lr = t.len() - 1;
    let lc = t[lr].len() - 1;
    if r != lr || c != lc {
        assert(t[r][c] < t[lr][lc]);
    }
    assert(in_table(t, o));
    if o == b.len() {
        vstd::utf8::is_char_boundary_start_end_of_seq(b);
    } else {
        is_char_boundary_iff_not_is_continuation_byte(b, o);
    }
}

} // verus!
