use vstd::prelude::*;

verus! {

/// A `(row, column)` pair, both counted from zero.
pub type Position = (usize, usize);

/// Sum of `len + 1` over the first `r` rows: the number of characters the
/// lexer reads before row `r`, counting one line break after each row.
pub open spec fn prefix_len(rows: Seq<Seq<char>>, r: int) -> nat
    decreases r,
{
    if r <= 0 {
        0
    } else {
        prefix_len(rows, r - 1) + rows[r - 1].len() + 1
    }
}

/// Number of characters the lexer reads over the whole buffer.
pub open spec fn total_len(rows: Seq<Seq<char>>) -> nat {
    prefix_len(rows, rows.len() as int)
}

/// A position the lexer may stand on: a character of a row, or the line break
/// that ends it (column equal to the row's length).
pub open spec fn valid_pos(rows: Seq<Seq<char>>, p: Position) -> bool {
    p.0 < rows.len() && p.1 <= rows[p.0 as int].len()
}

/// The character the lexer reads at a valid position.
pub open spec fn char_at(rows: Seq<Seq<char>>, p: Position) -> char {
    if p.1 < rows[p.0 as int].len() {
        rows[p.0 as int][p.1 as int]
    } else {
        '\n'
    }
}

/// Distance of a position from the start of the buffer, in characters read.
pub open spec fn offset(rows: Seq<Seq<char>>, p: Position) -> nat {
    prefix_len(rows, p.0 as int) + p.1 as nat
}

/// The position after a valid one: the next column, else the start of the
/// next row, else none (end of input).
pub open spec fn next_pos(rows: Seq<Seq<char>>, p: Position) -> Option<Position> {
    if p.1 < rows[p.0 as int].len() {
        Some((p.0, (p.1 + 1) as usize))
    } else if p.0 + 1 < rows.len() {
        Some(((p.0 + 1) as usize, 0usize))
    } else {
        None
    }
}

/// Row count and row lengths all fit in `usize`.
pub open spec fn fits(rows: Seq<Seq<char>>) -> bool {
    rows.len() <= usize::MAX && forall|r: int| 0 <= r < rows.len() ==> #[trigger] rows[r].len() <= usize::MAX
}

/// The end-of-input position: one row past the last, column zero.
pub open spec fn eof_pos(rows: Seq<Seq<char>>) -> Position {
    (rows.len() as usize, 0usize)
}

pub proof fn lemma_prefix_monotonic(rows: Seq<Seq<char>>, a: int, b: int)
    requires
        0 <= a <= b,
    ensures
        prefix_len(rows, a) + (b - a) <= prefix_len(rows, b),
    decreases b - a,
{
    if a < b {
        lemma_prefix_monotonic(rows, a, b - 1);
    }
}

/// Every valid position lies before the end, and stepping forward moves one
/// character further.
pub proof fn lemma_offset_step(rows: Seq<Seq<char>>, p: Position)
    requires
        valid_pos(rows, p),
        fits(rows),
    ensures
        offset(rows, p) < total_len(rows),
        next_pos(rows, p) matches Some(q) ==> valid_pos(rows, q) && offset(rows, q) == offset(rows, p) + 1,
{
    lemma_prefix_monotonic(rows, p.0 + 1, rows.len() as int);
    assert(prefix_len(rows, p.0 + 1) == prefix_len(rows, p.0 as int) + rows[p.0 as int].len() + 1);
    if p.1 >= rows[p.0 as int].len() && p.0 + 1 < rows.len() {
        let q = ((p.0 + 1) as usize, 0usize);
        assert(offset(rows, q) == prefix_len(rows, p.0 + 1));
    }
}

/// A text held as rows of characters. Line breaks separate rows and are not
/// stored in them; `\r\n` counts as one line break.
#[derive(PartialEq, Eq, Clone, Debug)]
pub struct RawJson {
    json: Vec<Vec<char>>,
}

impl View for RawJson {
    type V = Seq<Seq<char>>;

    closed spec fn view(&self) -> Seq<Seq<char>> {
        Seq::new(self.json@.len(), |i: int| self.json@[i]@)
    }
}

/// The rows of a text: split at each `\n`, with a `\r` just before a `\n`
/// dropped. The empty text has no rows.
pub open spec fn split_rows(text: Seq<char>) -> Seq<Seq<char>>
    decreases text.len(),
{
    if text.len() == 0 {
        seq![]
    } else {
        split_rows_from(text, seq![])
    }
}

/// Rows of `rest`, where `row` holds the characters already read on the
/// current row.
pub open spec fn split_rows_from(rest: Seq<char>, row: Seq<char>) -> Seq<Seq<char>>
    decreases rest.len(),
{
    if rest.len() == 0 {
        seq![row]
    } else if rest[0] == '\n' {
        seq![row] + split_rows_from(rest.drop_first(), seq![])
    } else if rest[0] == '\r' && rest.len() > 1 && rest[1] == '\n' {
        seq![row] + split_rows_from(rest.drop_first().drop_first(), seq![])
    } else {
        split_rows_from(rest.drop_first(), row.push(rest[0]))
    }
}

impl RawJson {
    /// Splits a text into rows (see `split_rows`).
    pub fn from_chars(text: &Vec<char>) -> (r: RawJson)
        requires
            text@.len() < usize::MAX,
        ensures
            r@ == split_rows(text@),
            fits(r@),
    {
        let n = text.len();
        let mut json: Vec<Vec<char>> = Vec::new();
        if n == 0 {
            let r = RawJson { json };
            assert(r@ =~= seq![]);
            return r;
        }
        let mut row: Vec<char> = Vec::new();
        let mut i: usize = 0;
        assert(text@.subrange(0, n as int) =~= text@);
        assert(Seq::new(json@.len(), |k: int| json@[k]@) =~= Seq::<Seq<char>>::empty());
        assert(row@ =~= seq![]);
        while i < n
            invariant
                n == text@.len(),
                n < usize::MAX,
                0 < n,
                i <= n,
                row@.len() <= i,
                json@.len() <= i,
                forall|k: int| 0 <= k < json@.len() ==> #[trigger] json@[k]@.len() <= usize::MAX,
                split_rows(text@) == Seq::new(json@.len(), |k: int| json@[k]@) + split_rows_from(
                    text@.subrange(i as int, n as int),
                    row@,
                ),
            decreases n - i,
        {
            let ghost rest = text@.subrange(i as int, n as int);
            let ghost before = Seq::new(json@.len(), |k: int| json@[k]@);
            let c = text[i];
            if c == '\n' {
                assert(rest.drop_first() =~= text@.subrange(i + 1, n as int));
                json.push(row);
                row = Vec::new();
                i = i + 1;
                assert(Seq::new(json@.len(), |k: int| json@[k]@) =~= before + seq![json@[json@.len() - 1]@]);
            } else if c == '\r' && i + 1 < n && text[i + 1] == '\n' {
                assert(rest.drop_first().drop_first() =~= text@.subrange(i + 2, n as int));
                json.push(row);
                row = Vec::new();
                i = i + 2;
                assert(Seq::new(json@.len(), |k: int| json@[k]@) =~= before + seq![json@[json@.len() - 1]@]);
            } else {
                assert(rest.drop_first() =~= text@.subrange(i + 1, n as int));
                row.push(c);
                i = i + 1;
            }
        }
        assert(text@.subrange(n as int, n as int) =~= seq![]);
        json.push(row);
        let r = RawJson { json };
        assert(r@ =~= split_rows(text@));
        r
    }

    /// Splits a text into rows (see `split_rows`).
    pub fn from_text(text: &str) -> (r: RawJson)
        requires
            text@.len() < usize::MAX,
        ensures
            r@ == split_rows(text@),
            fits(r@),
    {
        let chars = crate::text::chars_of(text);
        RawJson::from_chars(&chars)
    }

    /// Number of rows.
    pub fn rows(&self) -> (r: usize)
        ensures
            r == self@.len(),
    {
        self.json.len()
    }

    /// Whether there are no rows (the text was empty).
    pub fn is_empty(&self) -> (r: bool)
        ensures
            r == (self@.len() == 0),
    {
        self.json.len() == 0
    }

    /// Length of row `row`.
    pub fn row_len(&self, row: usize) -> (r: usize)
        requires
            row < self@.len(),
        ensures
            r == self@[row as int].len(),
    {
        self.json[row].len()
    }

    /// The character at `(row, col)`, or none when out of range.
    pub fn at(&self, row: usize, col: usize) -> (r: Option<char>)
        ensures
            r == (if row < self@.len() && col < self@[row as int].len() {
                Some(self@[row as int][col as int])
            } else {
                None
            }),
    {
        if row < self.json.len() && col < self.json[row].len() {
            Some(self.json[row][col])
        } else {
            None
        }
    }

    /// The end-of-input position: `(rows, 0)`, which is `(0, 0)` when empty.
    pub fn eof(&self) -> (r: Position)
        ensures
            r == eof_pos(self@),
    {
        (self.json.len(), 0)
    }

    /// The first character and its position, if any.
    pub fn first(&self) -> (r: Option<(Position, char)>)
        requires
            fits(self@),
        ensures
            r == (if self@.len() == 0 {
                None
            } else {
                Some(((0usize, 0usize), char_at(self@, (0usize, 0usize))))
            }),
    {
        if self.json.len() == 0 {
            None
        } else if self.json[0].len() == 0 {
            Some(((0, 0), '\n'))
        } else {
            Some(((0, 0), self.json[0][0]))
        }
    }

    /// A copy of each row.
    pub fn lines(&self) -> (r: Vec<Vec<char>>)
        ensures
            r@.len() == self@.len(),
            forall|i: int| 0 <= i < r@.len() ==> #[trigger] r@[i]@ == self@[i],
    {
        let mut r: Vec<Vec<char>> = Vec::new();
        let mut i: usize = 0;
        while i < self.json.len()
            invariant
                i <= self.json@.len(),
                r@.len() == i,
                forall|k: int| 0 <= k < i ==> #[trigger] r@[k]@ == self@[k],
            decreases self.json@.len() - i,
        {
            let mut line: Vec<char> = Vec::new();
            let mut j: usize = 0;
            while j < self.json[i].len()
                invariant
                    i < self.json@.len(),
                    j <= self.json@[i as int]@.len(),
                    line@ == self.json@[i as int]@.subrange(0, j as int),
                decreases self.json@[i as int]@.len() - j,
            {
                line.push(self.json[i][j]);
                j = j + 1;
            }
            assert(line@ =~= self.json@[i as int]@);
            r.push(line);
            i = i + 1;
        }
        r
    }
}

} // verus!
