//! A plain text table: headers, rows of cells, and a line width.

use vstd::prelude::*;
use crate::text::{joined, padded, texts, join, pad_left};

verus! {

/// One row of a table.
#[derive(Clone, Debug, PartialEq, Eq)]
pub struct Row {
    pub cells: Vec<String>,
}

/// A table of text cells under optional headers.
#[derive(Clone, Debug, PartialEq, Eq)]
pub struct Table {
    pub headers: Vec<String>,
    pub rows: Vec<Row>,
    pub line_width: usize,
}

impl Table {
    /// An empty table with lines of a hundred characters.
    pub fn new() -> (t: Table)
        ensures
            t.headers@.len() == 0,
            t.rows@.len() == 0,
            t.line_width == 100,
    {
        Table { headers: Vec::new(), rows: Vec::new(), line_width: 100 }
    }

    /// Replaces the headers.
    pub fn set_headers(&mut self, headers: Vec<String>)
        ensures
            final(self).headers == headers,
            final(self).rows == old(self).rows,
            final(self).line_width == old(self).line_width,
    {
        self.headers = headers
    }

    /// Appends a row with the given cells.
    pub fn add_row(&mut self, row: Vec<String>)
        ensures
            final(self).rows@ == old(self).rows@.push(Row { cells: row }),
            final(self).headers == old(self).headers,
            final(self).line_width == old(self).line_width,
    {
        self.rows.push(Row { cells: row })
    }
}

/// The length of a text in bytes, as the machine counts it.
pub open spec fn byte_len(s: Seq<char>) -> int {
    (vstd::utf8::encode_utf8(s).len() as usize) as int
}

/// The length in bytes of cell `i`, or zero where there is no such cell.
pub open spec fn cell_len(cells: Seq<String>, i: int) -> int {
    if 0 <= i < cells.len() {
        byte_len(cells[i]@)
    } else {
        0
    }
}

/// The larger of two numbers.
pub open spec fn larger(a: int, b: int) -> int {
    if a >= b {
        a
    } else {
        b
    }
}

/// The longest cell `i` of the first `upto` rows.
pub open spec fn widest(rows: Seq<Row>, upto: int, i: int) -> int
    decreases upto,
{
    if upto <= 0 {
        0
    } else {
        larger(widest(rows, upto - 1, i), cell_len(rows[upto - 1].cells@, i))
    }
}

/// The width of column `i`: that of its longest cell, header included.
pub open spec fn column_width(t: Table, i: int) -> int {
    larger(cell_len(t.headers@, i), widest(t.rows@, t.rows.len() as int, i))
}

/// Where the laying out of cells stands: the width used on the current
/// line, the cells on it, and the lines that are full.
pub struct Layout {
    pub offset: int,
    pub current: Seq<Seq<char>>,
    pub done: Seq<Seq<char>>,
}

/// The layout after the first `upto` cells. A cell whose column would
/// carry the line beyond the line width starts a new line, on which its
/// own width is not counted.
pub open spec fn laid(t: Table, cells: Seq<String>, upto: int, done: Seq<Seq<char>>) -> Layout
    decreases upto,
{
    if upto <= 0 {
        Layout { offset: 0, current: Seq::empty(), done }
    } else {
        let before = laid(t, cells, upto - 1, done);
        let width = column_width(t, upto - 1);
        let cell = padded(cells[upto - 1]@, width);
        if before.offset + width > t.line_width {
            Layout {
                offset: 0,
                current: seq![cell],
                done: before.done.push(joined(before.current, " "@)),
            }
        } else {
            Layout {
                offset: before.offset + width,
                current: before.current.push(cell),
                done: before.done,
            }
        }
    }
}

/// The lines `done` followed by the lines that the cells fill.
pub open spec fn block(t: Table, cells: Seq<String>, done: Seq<Seq<char>>) -> Seq<Seq<char>> {
    let end = laid(t, cells, cells.len() as int, done);
    end.done.push(joined(end.current, " "@))
}

/// The lines of the headers and of the first `upto` rows.
pub open spec fn table_lines(t: Table, upto: int) -> Seq<Seq<char>>
    decreases upto,
{
    if upto <= 0 {
        block(t, t.headers@, Seq::empty())
    } else {
        block(t, t.rows@[upto - 1].cells@, table_lines(t, upto - 1))
    }
}

/// The table as text: the lines of the headers and of the rows, and the
/// first line once more at the end.
pub open spec fn formatted(t: Table) -> Seq<char> {
    let lines = table_lines(t, t.rows.len() as int);
    joined(lines.push(lines[0]), "\n"@)
}

proof fn lemma_lines_nonempty(t: Table, upto: int)
    ensures
        table_lines(t, upto).len() > 0,
        upto > 0 ==> table_lines(t, upto)[0] == table_lines(t, upto - 1)[0],
    decreases upto,
{
    if upto > 0 {
        lemma_lines_nonempty(t, upto - 1);
        let cells = t.rows@[upto - 1].cells@;
        lemma_laid_keeps(t, cells, cells.len() as int, table_lines(t, upto - 1));
    }
}

proof fn lemma_laid_keeps(t: Table, cells: Seq<String>, upto: int, done: Seq<Seq<char>>)
    ensures
        laid(t, cells, upto, done).done.len() >= done.len(),
        forall|i: int| 0 <= i < done.len() ==> laid(t, cells, upto, done).done[i] == done[i],
    decreases upto,
{
    if upto > 0 {
        lemma_laid_keeps(t, cells, upto - 1, done);
    }
}

proof fn lemma_first_line(t: Table, upto: int)
    requires
        upto >= 0,
    ensures
        table_lines(t, upto).len() > 0,
        table_lines(t, upto)[0] == table_lines(t, 0)[0],
    decreases upto,
{
    lemma_lines_nonempty(t, upto);
    if upto > 0 {
        lemma_first_line(t, upto - 1);
    }
}

impl Table {
    /// The length in bytes of the longest cell `i`, header included.
    fn width_of(&self, i: usize) -> (w: usize)
        ensures
            w == column_width(*self, i as int),
    {
        let mut w: usize = if i < self.headers.len() {
            self.headers[i].as_str().len()
        } else {
            0
        };
        let ghost head = w;
        let mut r: usize = 0;
        while r < self.rows.len()
            invariant
                r <= self.rows.len(),
                head == cell_len(self.headers@, i as int),
                w == larger(head as int, widest(self.rows@, r as int, i as int)),
            decreases self.rows.len() - r,
        {
            let cells = &self.rows[r].cells;
            if i < cells.len() {
                let len = cells[i].as_str().len();
                if len > w {
                    w = len;
                }
            }
            r += 1;
        }
        w
    }

    /// Lays the cells out on lines and appends the lines.
    fn lay_out(&self, cells: &Vec<String>, lines: &mut Vec<String>)
        ensures
            texts(final(lines)@) == block(*self, cells@, texts(old(lines)@)),
    {
        let ghost done = texts(lines@);
        let mut current: Vec<String> = Vec::new();
        let mut offset: usize = 0;
        let mut i: usize = 0;
        assert(texts(current@) =~= Seq::<Seq<char>>::empty());
        while i < cells.len()
            invariant
                i <= cells.len(),
                offset <= self.line_width,
                laid(*self, cells@, i as int, done) == (Layout {
                    offset: offset as int,
                    current: texts(current@),
                    done: texts(lines@),
                }),
            decreases cells.len() - i,
        {
            let w = self.width_of(i);
            let ghost lines_before = texts(lines@);
            let ghost current_before = texts(current@);
            if w > self.line_width - offset {
                offset = 0;
                lines.push(join(&current, " "));
                current = Vec::new();
                assert(texts(lines@) =~= lines_before.push(joined(current_before, " "@)));
            } else {
                offset = offset + w;
            }
            let cell = pad_left(cells[i].as_str(), w);
            current.push(cell);
            proof {
                let padded_cell = padded(cells@[i as int]@, w as int);
                if w > self.line_width - laid(*self, cells@, i as int, done).offset {
                    assert(texts(current@) =~= seq![padded_cell]);
                } else {
                    assert(texts(current@) =~= current_before.push(padded_cell));
                }
            }
            i += 1;
        }
        let ghost lines_before = texts(lines@);
        lines.push(join(&current, " "));
        assert(texts(lines@) =~= lines_before.push(joined(texts(current@), " "@)));
    }

    /// The table as text. Each column is as wide as its longest cell is
    /// long in bytes, every cell is set flush right in its column, and the
    /// cells of a row are joined by single spaces.
    pub fn format(&self) -> (r: String)
        ensures
            r@ == formatted(*self),
    {
        let mut lines: Vec<String> = Vec::new();
        assert(texts(lines@) =~= Seq::<Seq<char>>::empty());
        self.lay_out(&self.headers, &mut lines);
        let mut r: usize = 0;
        while r < self.rows.len()
            invariant
                r <= self.rows.len(),
                texts(lines@) == table_lines(*self, r as int),
            decreases self.rows.len() - r,
        {
            self.lay_out(&self.rows[r].cells, &mut lines);
            r += 1;
        }
        proof {
            lemma_first_line(*self, self.rows.len() as int);
            assert(texts(lines@).len() == lines.len());
        }
        let ghost before = texts(lines@);
        let first = lines[0].clone();
        lines.push(first);
        assert(texts(lines@) =~= before.push(before[0]));
        join(&lines, "\n")
    }
}

} // verus!
