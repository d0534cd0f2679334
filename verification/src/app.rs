//! Pager state and key handling.

use vstd::prelude::*;

use crate::data::{digest, digest_spec, render_spec, Data, DataKind, DataView};
use crate::input::{lemma_map_push, row_view, rows_view, Column, ColumnView, DocView, Document};
use crate::json::{measure, measure_spec, Layout};
use crate::width::{cap, display_width, width_of};

verus! {

/// How many columns a single horizontal step moves.
pub const HSTEP: usize = 30;

/// The width a cell takes in its readable form: pretty JSON as wide as its
/// widest line, a blob as its digest, anything else as written.
pub open spec fn readable_cell_width(d: DataView) -> int {
    match d {
        DataView::Json(v) => measure_spec(v, Layout::Pretty).1,
        DataView::Bytes(b) => cap(width_of(digest_spec(b)) as int),
        _ => cap(width_of(render_spec(d)) as int),
    }
}

/// The widest readable cell among the first `k` rows of column `i`, and the
/// name.
pub open spec fn readable_width(doc: DocView, i: int, k: int) -> int
    decreases k,
{
    if k <= 0 {
        cap(width_of(doc.columns[i].name) as int)
    } else {
        let w = readable_cell_width(doc.rows[k - 1][i]);
        let m = readable_width(doc, i, k - 1);
        if w > m {
            w
        } else {
            m
        }
    }
}

/// Display width of column `i` as things stand: measured by the document
/// while it shows the form psql printed, measured again in its readable form.
pub open spec fn column_width_spec(doc: DocView, readable: Seq<bool>, i: int) -> int {
    if !readable[i] {
        doc.columns[i].width
    } else {
        readable_width(doc, i, doc.rows.len() as int)
    }
}

pub open spec fn widths_spec(doc: DocView, readable: Seq<bool>) -> Seq<int> {
    Seq::new(doc.columns.len(), |i: int| column_width_spec(doc, readable, i))
}

/// Lines a cell takes: only pretty-printed JSON takes more than one.
pub open spec fn cell_height(d: DataView, readable: bool) -> int {
    match d {
        DataView::Json(v) => if readable {
            measure_spec(v, Layout::Pretty).0
        } else {
            1
        },
        _ => 1,
    }
}

/// The tallest of the first `k` cells of a row (one line at least).
pub open spec fn height_fold(row: Seq<DataView>, readable: Seq<bool>, k: int) -> int
    decreases k,
{
    if k <= 0 {
        1
    } else {
        let h = cell_height(row[k - 1], readable[k - 1]);
        let m = height_fold(row, readable, k - 1);
        if h > m {
            h
        } else {
            m
        }
    }
}

/// Lines a row takes: as many as its tallest cell.
pub open spec fn row_height_spec(row: Seq<DataView>, readable: Seq<bool>) -> int {
    height_fold(
        row,
        readable,
        if row.len() < readable.len() {
            row.len() as int
        } else {
            readable.len() as int
        },
    )
}

/// The line row `k` starts on (or, for `k` the number of rows, the total).
pub open spec fn offset_at(doc: DocView, readable: Seq<bool>, k: int) -> int
    decreases k,
{
    if k <= 0 {
        0
    } else {
        cap(offset_at(doc, readable, k - 1) + row_height_spec(doc.rows[k - 1], readable))
    }
}

pub open spec fn offsets_spec(doc: DocView, readable: Seq<bool>) -> Seq<int> {
    Seq::new((doc.rows.len() + 1) as nat, |k: int| offset_at(doc, readable, k))
}

/// Total lines of the body.
pub open spec fn total_lines_spec(doc: DocView, readable: Seq<bool>) -> int {
    offset_at(doc, readable, doc.rows.len() as int)
}

/// The columns, each padded by a space either side, joined by separators.
pub open spec fn cells_width(ws: Seq<int>, k: int) -> int
    decreases k,
{
    if k <= 0 {
        0
    } else {
        cells_width(ws, k - 1) + ws[k - 1] + 2
    }
}

pub open spec fn table_width_spec(ws: Seq<int>) -> int {
    cap(
        cells_width(ws, ws.len() as int) + if ws.len() > 0 {
            ws.len() - 1
        } else {
            0
        },
    )
}

/// How many rows start at or before `line`.
pub open spec fn rows_started(offs: Seq<int>, line: int) -> int
    decreases offs.len(),
{
    if offs.len() == 0 {
        0
    } else if offs.last() <= line {
        offs.len() as int
    } else {
        rows_started(offs.drop_last(), line)
    }
}

/// The row that `line` falls in, and how far into it: past the last line,
/// the last row.
pub open spec fn row_at_spec(doc: DocView, readable: Seq<bool>, line: int) -> (int, int) {
    let offs = offsets_spec(doc, readable);
    let started = rows_started(offs, line);
    let a = if started > 0 {
        started - 1
    } else {
        0
    };
    let last = if doc.rows.len() > 0 {
        doc.rows.len() - 1
    } else {
        0
    };
    let row = if a < last {
        a
    } else {
        last
    };
    (row, if line > offs[row] {
        line - offs[row]
    } else {
        0
    })
}

/// Display column just past column `i` and the separator after it.
pub open spec fn column_end(ws: Seq<int>, i: int) -> int
    decreases i + 1,
{
    if i < 0 {
        0
    } else {
        cap(column_end(ws, i - 1) + ws[i] + 3)
    }
}

/// The column covering `col`, or the first one to its right if it falls on
/// a separator.
pub open spec fn column_at_spec(ws: Seq<int>, col: int) -> Option<int> {
    if exists|i: int| 0 <= i < ws.len() && column_end(ws, i) - 1 > col {
        Some(choose|i: int| 0 <= i < ws.len() && column_end(ws, i) - 1 > col && forall|j: int| 0 <= j < i ==> column_end(ws, j) - 1 <= col)
    } else {
        None
    }
}

/// Uncapped, a column ends where the columns before it, each padded and
/// followed by a separator, end.
proof fn lemma_column_end_sum(ws: Seq<int>, i: int)
    requires
        0 <= i < ws.len(),
        forall|j: int| 0 <= j < ws.len() ==> #[trigger] ws[j] >= 0,
        cells_width(ws, ws.len() as int) + ws.len() <= usize::MAX,
    ensures
        column_end(ws, i) == cells_width(ws, i + 1) + i + 1,
    decreases i,
{
    lemma_cells_width_mono(ws, i + 1, ws.len() as int);
    assert(cells_width(ws, i + 1) == cells_width(ws, i) + ws[i] + 2);
    if i > 0 {
        lemma_column_end_sum(ws, i - 1);
    } else {
        assert(column_end(ws, -1) == 0);
        assert(cells_width(ws, 0) == 0);
    }
    assert(column_end(ws, i) == cap(column_end(ws, i - 1) + ws[i] + 3));
}

proof fn lemma_cells_width_mono(ws: Seq<int>, a: int, b: int)
    requires
        0 <= a <= b <= ws.len(),
        forall|j: int| 0 <= j < ws.len() ==> #[trigger] ws[j] >= 0,
    ensures
        cells_width(ws, a) + 2 * (b - a) <= cells_width(ws, b),
    decreases b - a,
{
    if a < b {
        lemma_cells_width_mono(ws, a, b - 1);
    }
}

/// No column is found at or past the table's right edge, and one is found
/// anywhere before it (a separator giving the column to its right).
pub proof fn law_column_at_within_the_table(ws: Seq<int>, x: int)
    requires
        x >= 0,
        forall|j: int| 0 <= j < ws.len() ==> #[trigger] ws[j] >= 0,
        table_width_spec(ws) < usize::MAX,
    ensures
        column_at_spec(ws, x) is None <==> x >= table_width_spec(ws),
{
    let n = ws.len() as int;
    if n > 0 {
        assert(cells_width(ws, n) + n <= usize::MAX);
        lemma_column_end_sum(ws, n - 1);
        if x < table_width_spec(ws) {
            assert(column_end(ws, n - 1) - 1 > x);
        } else {
            assert forall|i: int| 0 <= i < n implies column_end(ws, i) - 1 <= x by {
                lemma_column_end_sum(ws, i);
                lemma_cells_width_mono(ws, i + 1, n);
            }
        }
    }
}

/// Below any column past `col` there is a first one.
proof fn lemma_first_column_past(ws: Seq<int>, col: int, k: int)
    requires
        0 <= k < ws.len(),
        column_end(ws, k) - 1 > col,
    ensures
        exists|i: int|
            0 <= i < ws.len() && column_end(ws, i) - 1 > col && forall|j: int|
                0 <= j < i ==> column_end(ws, j) - 1 <= col,
    decreases k,
{
    if exists|j: int| 0 <= j < k && column_end(ws, j) - 1 > col {
        let j = choose|j: int| 0 <= j < k && column_end(ws, j) - 1 > col;
        lemma_first_column_past(ws, col, j);
    } else {
        assert(0 <= k < ws.len() && column_end(ws, k) - 1 > col && forall|j: int|
            0 <= j < k ==> column_end(ws, j) - 1 <= col);
    }
}

/// What `column_at_spec` finds is a column, past `col`, with none before it.
pub proof fn lemma_column_at_found(ws: Seq<int>, col: int)
    ensures
        column_at_spec(ws, col) matches Some(i) ==> {
            &&& 0 <= i < ws.len()
            &&& column_end(ws, i) - 1 > col
            &&& forall|j: int| 0 <= j < i ==> column_end(ws, j) - 1 <= col
        },
{
    if exists|i: int| 0 <= i < ws.len() && column_end(ws, i) - 1 > col {
        let k = choose|i: int| 0 <= i < ws.len() && column_end(ws, i) - 1 > col;
        lemma_first_column_past(ws, col, k);
    }
}

pub struct App {
    pub doc: Document,
    /// Which columns are showing their readable form rather than the one psql
    /// printed. It cuts both ways: JSON grows, spread over several lines, while
    /// a `bytea` blob shrinks to its size and checksum.
    pub readable: Vec<bool>,
    /// Display width of each column as things stand, which depends on which
    /// form each is being shown in. (Public only so that contracts can speak
    /// of it; [`App::width`] is the way to read it.)
    pub widths: Vec<usize>,
    /// Line each row starts on, with a final entry for the total. Rows are one
    /// line tall until some JSON is pretty-printed. (Public for the same
    /// reason; [`App::row_at`] is the way to read it.)
    pub offsets: Vec<usize>,
    /// Topmost visible line of the body. Lines, not rows: a pretty-printed row
    /// is taller than the screen often enough that paging by row would strand
    /// its bottom half.
    pub top: usize,
    /// Display column of the leftmost visible cell.
    pub left: usize,
    /// Height in lines of the row viewport, updated on every draw.
    pub view_height: usize,
    /// Width in columns of the text viewport, updated on every draw.
    pub view_width: usize,
    pub should_quit: bool,
}

pub open spec fn int_view(v: Seq<usize>) -> Seq<int> {
    v.map_values(|x: usize| x as int)
}

impl App {
    /// The measurements match the document and the form each column is in.
    pub open spec fn inv(&self) -> bool {
        &&& self.doc.is_rectangular()
        &&& self.readable@.len() == self.doc.columns@.len()
        &&& self.widths@.len() == self.doc.columns@.len()
        &&& self.offsets@.len() == self.doc.rows@.len() + 1
        &&& int_view(self.widths@) == widths_spec(self.doc@, self.readable@)
        &&& int_view(self.offsets@) == offsets_spec(self.doc@, self.readable@)
    }

    /// The widths of the columns as things stand.
    pub open spec fn widths_now(&self) -> Seq<int> {
        widths_spec(self.doc@, self.readable@)
    }

    /// Largest valid `top`: scrolling stops with the last line at the bottom.
    pub open spec fn max_top_spec(&self) -> int {
        let t = total_lines_spec(self.doc@, self.readable@);
        if t > self.view_height {
            t - self.view_height
        } else {
            0
        }
    }

    /// Largest valid `left`: scrolling stops with the last column flush right.
    pub open spec fn max_left_spec(&self) -> int {
        let t = table_width_spec(self.widths_now());
        if t > self.view_width {
            t - self.view_width
        } else {
            0
        }
    }

    pub fn new(doc: Document) -> (app: Self)
        requires
            doc.is_rectangular(),
        ensures
            app.inv(),
            app.doc == doc,
            app.readable@ == Seq::new(doc.columns@.len(), |i: int| false),
            app.top == 0,
            app.left == 0,
            app.view_height == 1,
            app.view_width == 1,
            !app.should_quit,
    {
        let n = doc.columns.len();
        let mut readable: Vec<bool> = Vec::new();
        let mut i: usize = 0;
        while i < n
            invariant
                i <= n,
                readable@ == Seq::new(i as nat, |j: int| false),
            decreases n - i,
        {
            readable.push(false);
            i += 1;
            assert(readable@ =~= Seq::new(i as nat, |j: int| false));
        }
        let mut app = App {
            doc,
            readable,
            widths: Vec::new(),
            offsets: Vec::new(),
            top: 0,
            left: 0,
            view_height: 1,
            view_width: 1,
            should_quit: false,
        };
        app.relayout();
        app
    }

    /// Measure the table again after a column changed form.
    fn relayout(&mut self)
        requires
            old(self).doc.is_rectangular(),
            old(self).readable@.len() == old(self).doc.columns@.len(),
        ensures
            final(self).inv(),
            final(self).doc == old(self).doc,
            final(self).readable == old(self).readable,
            final(self).top == old(self).top,
            final(self).left == old(self).left,
            final(self).view_height == old(self).view_height,
            final(self).view_width == old(self).view_width,
            final(self).should_quit == old(self).should_quit,
    {
        let n = self.doc.columns.len();
        let mut widths: Vec<usize> = Vec::new();
        let mut i: usize = 0;
        while i < n
            invariant
                i <= n == self.doc.columns@.len(),
                self.doc.is_rectangular(),
                self.readable@.len() == n,
                int_view(widths@) == widths_spec(self.doc@, self.readable@).take(i as int),
            decreases n - i,
        {
            let w = self.column_width(i);
            let ghost old_widths = widths@;
            widths.push(w);
            proof {
                lemma_map_push(old_widths, w, |x: usize| x as int);
                assert(int_view(widths@) =~= widths_spec(self.doc@, self.readable@).take(i + 1));
            }
            i += 1;
        }
        assert(widths_spec(self.doc@, self.readable@).take(n as int) =~= widths_spec(
            self.doc@,
            self.readable@,
        ));

        let nrows = self.doc.rows.len();
        let mut offsets: Vec<usize> = Vec::new();
        offsets.push(0);
        let mut line: usize = 0;
        let mut k: usize = 0;
        while k < nrows
            invariant
                k <= nrows == self.doc.rows@.len(),
                line as int == offset_at(self.doc@, self.readable@, k as int),
                int_view(offsets@) == offsets_spec(self.doc@, self.readable@).take(k + 1),
            decreases nrows - k,
        {
            let h = self.row_height(self.doc.rows[k].as_slice());
            line = line.saturating_add(h);
            let ghost old_offsets = offsets@;
            offsets.push(line);
            proof {
                lemma_map_push(old_offsets, line, |x: usize| x as int);
                assert(self.doc@.rows[k as int] == row_view(self.doc.rows@[k as int]));
                assert(int_view(offsets@) =~= offsets_spec(self.doc@, self.readable@).take(k + 2));
            }
            k += 1;
        }
        assert(offsets_spec(self.doc@, self.readable@).take(nrows + 1) =~= offsets_spec(
            self.doc@,
            self.readable@,
        ));
        self.widths = widths;
        self.offsets = offsets;
    }

    fn readable_cell_width_exec(cell: &Data) -> (w: usize)
        ensures
            w as int == readable_cell_width(cell@),
    {
        match cell {
            Data::Json(v) => measure(v.as_str(), Layout::Pretty).1,
            Data::Bytes(b) => display_width(digest(b.as_slice()).as_str()),
            other => display_width(other.render().as_str()),
        }
    }

    fn column_width(&self, index: usize) -> (w: usize)
        requires
            self.doc.is_rectangular(),
            self.readable@.len() == self.doc.columns@.len(),
            index < self.doc.columns@.len(),
        ensures
            w as int == column_width_spec(self.doc@, self.readable@, index as int),
    {
        let column = &self.doc.columns[index];
        // The document measured every column from the form psql printed, which
        // is still the one being shown.
        if !self.readable[index] {
            return column.width;
        }
        let mut w = display_width(column.name.as_str());
        let mut j: usize = 0;
        while j < self.doc.rows.len()
            invariant
                j <= self.doc.rows@.len(),
                index < self.doc.columns@.len(),
                self.doc.is_rectangular(),
                w as int == readable_width(self.doc@, index as int, j as int),
            decreases self.doc.rows@.len() - j,
        {
            assert(self.doc.rows@[j as int]@.len() == self.doc.columns@.len());
            assert(self.doc@.rows[j as int] == row_view(self.doc.rows@[j as int]));
            let c = Self::readable_cell_width_exec(&self.doc.rows[j][index]);
            if c > w {
                w = c;
            }
            j += 1;
        }
        w
    }

    /// Lines a row takes. Only pretty-printed JSON takes more than a line; a
    /// blob's digest is one line however big the blob is.
    pub fn row_height(&self, row: &[Data]) -> (h: usize)
        ensures
            h as int == row_height_spec(row@.map_values(|d: Data| d@), self.readable@),
    {
        let ghost rv = row@.map_values(|d: Data| d@);
        let n = if row.len() < self.readable.len() {
            row.len()
        } else {
            self.readable.len()
        };
        let mut h: usize = 1;
        let mut k: usize = 0;
        while k < n
            invariant
                k <= n <= row@.len(),
                n <= self.readable@.len(),
                rv == row@.map_values(|d: Data| d@),
                h as int == height_fold(rv, self.readable@, k as int),
            decreases n - k,
        {
            let c = match &row[k] {
                Data::Json(v) => if self.readable[k] {
                    measure(v.as_str(), Layout::Pretty).0
                } else {
                    1
                },
                _ => 1,
            };
            if c > h {
                h = c;
            }
            k += 1;
        }
        h
    }

    pub fn width(&self, column: usize) -> (w: usize)
        requires
            self.inv(),
            column < self.doc.columns@.len(),
        ensures
            w as int == column_width_spec(self.doc@, self.readable@, column as int),
    {
        assert(int_view(self.widths@)[column as int] == self.widths@[column as int] as int);
        self.widths[column]
    }

    /// Total display width of the laid-out table: every column padded by a
    /// space either side, joined by a separator.
    pub fn table_width(&self) -> (t: usize)
        requires
            self.inv(),
        ensures
            t as int == table_width_spec(self.widths_now()),
    {
        let ghost ws = int_view(self.widths@);
        let mut cells: usize = 0;
        let mut k: usize = 0;
        while k < self.widths.len()
            invariant
                k <= self.widths@.len(),
                ws == int_view(self.widths@),
                cells as int == cap(cells_width(ws, k as int)),
            decreases self.widths@.len() - k,
        {
            cells = cells.saturating_add(self.widths[k].saturating_add(2));
            k += 1;
        }
        cells.saturating_add(self.widths.len().saturating_sub(1))
    }

    fn total_lines(&self) -> (t: usize)
        requires
            self.inv(),
        ensures
            t as int == total_lines_spec(self.doc@, self.readable@),
    {
        assert(int_view(self.offsets@).len() == self.offsets@.len());
        assert(int_view(self.offsets@)[self.offsets@.len() - 1] == self.offsets@[self.offsets@.len()
            - 1] as int);
        self.offsets[self.offsets.len() - 1]
    }

    /// The row that `line` falls in, and how far into it.
    pub fn row_at(&self, line: usize) -> (r: (usize, usize))
        requires
            self.inv(),
        ensures
            r.0 as int == row_at_spec(self.doc@, self.readable@, line as int).0,
            r.1 as int == row_at_spec(self.doc@, self.readable@, line as int).1,
    {
        let ghost offs = int_view(self.offsets@);
        let mut started = self.offsets.len();
        assert(offs.take(started as int) =~= offs);
        while started > 0 && self.offsets[started - 1] > line
            invariant
                started <= self.offsets@.len(),
                offs == int_view(self.offsets@),
                rows_started(offs, line as int) == rows_started(offs.take(started as int), line as int),
            decreases started,
        {
            assert(offs.take(started as int).drop_last() =~= offs.take(started - 1));
            assert(offs.take(started as int).last() == self.offsets@[started - 1] as int);
            started -= 1;
        }
        proof {
            if started > 0 {
                assert(offs.take(started as int).last() == offs[started - 1]);
                assert(offs.take(started as int).drop_last() =~= offs.take(started - 1));
            } else {
                assert(offs.take(0) =~= Seq::<int>::empty());
            }
            assert(offs.len() == self.doc.rows@.len() + 1);
        }
        let nrows = self.doc.rows.len();
        let a = started.saturating_sub(1);
        let last = nrows.saturating_sub(1);
        let row = if a < last {
            a
        } else {
            last
        };
        assert(offs[row as int] == self.offsets@[row as int] as int);
        (row, line.saturating_sub(self.offsets[row]))
    }

    /// The column covering `display_col`, or the first one to its right if it
    /// falls on a separator.
    pub fn column_at(&self, display_col: usize) -> (r: Option<&Column>)
        requires
            self.inv(),
        ensures
            match column_at_spec(self.widths_now(), display_col as int) {
                Some(i) => r == Some(&self.doc.columns@[i]),
                None => r is None,
            },
    {
        let ghost ws = int_view(self.widths@);
        let mut x: usize = 0;
        let mut i: usize = 0;
        while i < self.doc.columns.len()
            invariant
                self.inv(),
                i <= self.doc.columns@.len() == ws.len(),
                ws == int_view(self.widths@),
                x as int == if i == 0 {
                    0
                } else {
                    column_end(ws, i - 1)
                },
                forall|j: int| 0 <= j < i ==> column_end(ws, j) - 1 <= display_col,
            decreases self.doc.columns@.len() - i,
        {
            assert(ws[i as int] == self.widths@[i as int] as int);
            assert(column_end(ws, i - 1) == if i == 0 {
                0
            } else {
                column_end(ws, i - 1)
            });
            x = x.saturating_add(self.widths[i]).saturating_add(3);
            assert(x as int == column_end(ws, i as int));
            if x - 1 > display_col {
                proof {
                    assert(0 <= i < ws.len() && column_end(ws, i as int) - 1 > display_col
                        && forall|j: int| 0 <= j < i ==> column_end(ws, j) - 1 <= display_col);
                    let c = choose|k: int|
                        0 <= k < ws.len() && column_end(ws, k) - 1 > display_col && forall|j: int|
                            0 <= j < k ==> column_end(ws, j) - 1 <= display_col;
                    if c < i {
                        assert(column_end(ws, c) - 1 <= display_col);
                    } else if c > i {
                        assert(column_end(ws, i as int) - 1 <= display_col);
                    }
                    assert(c == i);
                    assert(ws == self.widths_now());
                }
                return Some(&self.doc.columns[i]);
            }
            i += 1;
        }
        assert(ws == self.widths_now());
        None
    }

    pub fn has_readable(&self) -> (b: bool)
        ensures
            b == exists|i: int|
                0 <= i < self.doc.columns@.len() && (#[trigger] self.doc.columns@[i].kind
                    == DataKind::Json || self.doc.columns@[i].kind == DataKind::Bytes),
    {
        let mut i: usize = 0;
        while i < self.doc.columns.len()
            invariant
                i <= self.doc.columns@.len(),
                forall|j: int|
                    0 <= j < i ==> !(#[trigger] self.doc.columns@[j].kind == DataKind::Json
                        || self.doc.columns@[j].kind == DataKind::Bytes),
            decreases self.doc.columns@.len() - i,
        {
            if self.doc.columns[i].kind.has_readable_form() {
                return true;
            }
            i += 1;
        }
        false
    }
}

} // verus!

verus! {

/// The keys the pager tells apart.
#[derive(Debug, Clone, Copy, PartialEq, Eq, Structural)]
pub enum KeyCode {
    Char(char),
    Up,
    Down,
    Left,
    Right,
    PageUp,
    PageDown,
    Home,
    End,
    Enter,
    Esc,
    /// Any other key.
    Other,
}

/// Whether a key went down, repeated or came up.
#[derive(Debug, Clone, Copy, PartialEq, Eq, Structural)]
pub enum KeyEventKind {
    Press,
    Repeat,
    Release,
}

/// A key as the pager sees it: which key, how, and whether Control was held.
#[derive(Debug, Clone, Copy, PartialEq, Eq, Structural)]
pub struct KeyEvent {
    pub code: KeyCode,
    pub kind: KeyEventKind,
    pub ctrl: bool,
}

impl KeyEvent {
    /// A key press.
    pub fn new(code: KeyCode, ctrl: bool) -> (k: KeyEvent)
        ensures
            k == (KeyEvent { code, kind: KeyEventKind::Press, ctrl }),
    {
        KeyEvent { code, kind: KeyEventKind::Press, ctrl }
    }
}

/// What a key can change: the scroll position, which columns are readable,
/// and whether to quit.
pub struct PagerState {
    pub top: int,
    pub left: int,
    pub readable: Seq<bool>,
    pub should_quit: bool,
}

pub open spec fn state_of(app: App) -> PagerState {
    PagerState {
        top: app.top as int,
        left: app.left as int,
        readable: app.readable@,
        should_quit: app.should_quit,
    }
}

pub open spec fn max_top_of(doc: DocView, readable: Seq<bool>, view_height: int) -> int {
    let t = total_lines_spec(doc, readable);
    if t > view_height {
        t - view_height
    } else {
        0
    }
}

pub open spec fn max_left_of(doc: DocView, readable: Seq<bool>, view_width: int) -> int {
    let t = table_width_spec(widths_spec(doc, readable));
    if t > view_width {
        t - view_width
    } else {
        0
    }
}

/// `pos` moved by `delta`, kept within `0..=max` (and within `usize`).
pub open spec fn scrolled(pos: int, delta: int, max: int) -> int {
    let p = if pos + delta < 0 {
        0
    } else if pos + delta > usize::MAX {
        usize::MAX as int
    } else {
        pos + delta
    };
    if p < max {
        p
    } else {
        max
    }
}

/// Every column with a readable form switched into it, or all back to the
/// form psql printed if any was showing its readable form.
pub open spec fn toggled(doc: DocView, readable: Seq<bool>) -> Seq<bool> {
    let on = !(exists|i: int| 0 <= i < readable.len() && readable[i]);
    Seq::new(
        readable.len(),
        |i: int|
            on && (doc.columns[i].kind == DataKind::Json || doc.columns[i].kind == DataKind::Bytes),
    )
}

/// After switching forms: the row that was at the top starts the screen, as
/// far as the new length allows.
pub open spec fn toggle_state(app: App) -> PagerState {
    let doc = app.doc@;
    let rd = toggled(doc, app.readable@);
    let anchor = row_at_spec(doc, app.readable@, app.top as int).0;
    let t = offset_at(doc, rd, anchor);
    let mt = max_top_of(doc, rd, app.view_height as int);
    let ml = max_left_of(doc, rd, app.view_width as int);
    PagerState {
        top: if t < mt {
            t
        } else {
            mt
        },
        left: if app.left < ml {
            app.left as int
        } else {
            ml
        },
        readable: rd,
        should_quit: app.should_quit,
    }
}

pub open spec fn with_top(s: PagerState, top: int) -> PagerState {
    PagerState { top, left: s.left, readable: s.readable, should_quit: s.should_quit }
}

pub open spec fn with_left(s: PagerState, left: int) -> PagerState {
    PagerState { top: s.top, left, readable: s.readable, should_quit: s.should_quit }
}

pub open spec fn with_quit(s: PagerState) -> PagerState {
    PagerState { top: s.top, left: s.left, readable: s.readable, should_quit: true }
}

/// What a key does. Only presses count. `q`, Esc and Control-C or -D quit;
/// `j`/`k`, the arrows and Enter move a line or a step of thirty columns;
/// space, `f`, `b` and the page keys move a page (the view less a line);
/// `d` and `u` half a page; Home/`g`, End/`G`, `0`/`^` and `$` go to the
/// ends; `x` switches forms. Moving never goes past the last page or the
/// last column.
pub open spec fn key_step(app: App, key: KeyEvent) -> PagerState {
    let s = state_of(app);
    let doc = app.doc@;
    let rd = app.readable@;
    let mt = max_top_of(doc, rd, app.view_height as int);
    let ml = max_left_of(doc, rd, app.view_width as int);
    let page: int = if app.view_height > 2 {
        app.view_height - 1
    } else {
        1
    };
    let top = app.top as int;
    let left = app.left as int;
    if key.kind != KeyEventKind::Press {
        s
    } else {
        match key.code {
            KeyCode::Char(c) => if key.ctrl && (c == 'c' || c == 'd') {
                with_quit(s)
            } else if c == 'q' {
                with_quit(s)
            } else if c == 'j' {
                with_top(s, scrolled(top, 1, mt))
            } else if c == 'k' {
                with_top(s, scrolled(top, -1, mt))
            } else if c == 'l' {
                with_left(s, scrolled(left, 30, ml))
            } else if c == 'h' {
                with_left(s, scrolled(left, -30, ml))
            } else if c == ' ' || c == 'f' {
                with_top(s, scrolled(top, page, mt))
            } else if c == 'b' {
                with_top(s, scrolled(top, -page, mt))
            } else if c == 'd' {
                with_top(s, scrolled(top, page / 2, mt))
            } else if c == 'u' {
                with_top(s, scrolled(top, -(page / 2), mt))
            } else if c == 'g' {
                with_top(s, 0)
            } else if c == 'G' {
                with_top(s, mt)
            } else if c == '0' || c == '^' {
                with_left(s, 0)
            } else if c == '$' {
                with_left(s, ml)
            } else if c == 'x' {
                toggle_state(app)
            } else {
                s
            },
            KeyCode::Esc => with_quit(s),
            KeyCode::Down | KeyCode::Enter => with_top(s, scrolled(top, 1, mt)),
            KeyCode::Up => with_top(s, scrolled(top, -1, mt)),
            KeyCode::Right => with_left(s, scrolled(left, 30, ml)),
            KeyCode::Left => with_left(s, scrolled(left, -30, ml)),
            KeyCode::PageDown => with_top(s, scrolled(top, page, mt)),
            KeyCode::PageUp => with_top(s, scrolled(top, -page, mt)),
            KeyCode::Home => with_top(s, 0),
            KeyCode::End => with_top(s, mt),
            KeyCode::Other => s,
        }
    }
}

/// `x` moved by `delta`, stopping at the ends of `usize`.
fn saturating_add_signed(x: usize, delta: isize) -> (r: usize)
    ensures
        r as int == if x + delta < 0 {
            0
        } else if x + delta > usize::MAX {
            usize::MAX as int
        } else {
            x + delta
        },
{
    if delta >= 0 {
        x.saturating_add(delta as usize)
    } else {
        let back = (-(delta + 1)) as usize + 1;
        x.saturating_sub(back)
    }
}

impl App {
    /// Largest valid `top`: scrolling stops with the last line at the bottom.
    fn max_top(&self) -> (m: usize)
        requires
            self.inv(),
        ensures
            m as int == max_top_of(self.doc@, self.readable@, self.view_height as int),
    {
        self.total_lines().saturating_sub(self.view_height)
    }

    /// Largest valid `left`: scrolling stops with the last column flush right.
    fn max_left(&self) -> (m: usize)
        requires
            self.inv(),
        ensures
            m as int == max_left_of(self.doc@, self.readable@, self.view_width as int),
    {
        self.table_width().saturating_sub(self.view_width)
    }

    fn scroll_vertical(&mut self, delta: isize)
        requires
            old(self).inv(),
        ensures
            final(self).inv(),
            final(self).doc == old(self).doc,
            final(self).readable == old(self).readable,
            final(self).view_height == old(self).view_height,
            final(self).view_width == old(self).view_width,
            state_of(*final(self)) == with_top(
                state_of(*old(self)),
                scrolled(
                    old(self).top as int,
                    delta as int,
                    max_top_of(old(self).doc@, old(self).readable@, old(self).view_height as int),
                ),
            ),
    {
        let m = self.max_top();
        let t = saturating_add_signed(self.top, delta);
        self.top = if t < m {
            t
        } else {
            m
        };
    }

    fn scroll_horizontal(&mut self, delta: isize)
        requires
            old(self).inv(),
        ensures
            final(self).inv(),
            final(self).doc == old(self).doc,
            final(self).readable == old(self).readable,
            final(self).view_height == old(self).view_height,
            final(self).view_width == old(self).view_width,
            state_of(*final(self)) == with_left(
                state_of(*old(self)),
                scrolled(
                    old(self).left as int,
                    delta as int,
                    max_left_of(old(self).doc@, old(self).readable@, old(self).view_width as int),
                ),
            ),
    {
        let m = self.max_left();
        let l = saturating_add_signed(self.left, delta);
        self.left = if l < m {
            l
        } else {
            m
        };
    }

    /// Re-clamp after a resize changed the viewport.
    pub fn clamp(&mut self)
        requires
            old(self).inv(),
        ensures
            final(self).inv(),
            final(self).doc == old(self).doc,
            final(self).readable == old(self).readable,
            final(self).view_height == old(self).view_height,
            final(self).view_width == old(self).view_width,
            final(self).should_quit == old(self).should_quit,
            final(self).top as int == if old(self).top < old(self).max_top_spec() {
                old(self).top as int
            } else {
                old(self).max_top_spec()
            },
            final(self).left as int == if old(self).left < old(self).max_left_spec() {
                old(self).left as int
            } else {
                old(self).max_left_spec()
            },
    {
        let mt = self.max_top();
        let ml = self.max_left();
        if self.top > mt {
            self.top = mt;
        }
        if self.left > ml {
            self.left = ml;
        }
    }

    /// Switch every column that has a readable form into it, or back to the
    /// form psql printed.
    ///
    /// They move together: with no cursor there is no one column to mean, and
    /// one keypress to make a screenful legible beats hunting column by column.
    fn toggle_readable(&mut self)
        requires
            old(self).inv(),
        ensures
            final(self).inv(),
            final(self).doc == old(self).doc,
            final(self).view_height == old(self).view_height,
            final(self).view_width == old(self).view_width,
            state_of(*final(self)) == toggle_state(*old(self)),
    {
        let ghost start = *self;
        let n = self.readable.len();
        let mut any = false;
        let mut i: usize = 0;
        while i < n
            invariant
                i <= n == self.readable@.len(),
                any == exists|j: int| 0 <= j < i && self.readable@[j],
            decreases n - i,
        {
            if self.readable[i] {
                any = true;
            }
            i += 1;
        }
        let on = !any;
        let (anchor, _) = self.row_at(self.top);
        let ghost want = toggled(self.doc@, self.readable@);
        let mut k: usize = 0;
        while k < n
            invariant
                k <= n == self.readable@.len() == self.doc.columns@.len(),
                self.doc == start.doc,
                self.view_height == start.view_height,
                self.view_width == start.view_width,
                self.top == start.top,
                self.left == start.left,
                self.should_quit == start.should_quit,
                start.readable@.len() == n,
                want == toggled(start.doc@, start.readable@),
                on == !(exists|j: int| 0 <= j < n && start.readable@[j]),
                forall|j: int| 0 <= j < k ==> self.readable@[j] == want[j],
            decreases n - k,
        {
            let form = self.doc.columns[k].kind.has_readable_form();
            self.readable.set(k, on && form);
            k += 1;
        }
        assert(self.readable@ =~= want);
        self.relayout();
        assert(self.offsets@.len() == self.doc.rows@.len() + 1);
        assert(int_view(self.offsets@)[anchor as int] == self.offsets@[anchor as int] as int);
        // Keep the row that was at the top of the screen there.
        self.top = self.offsets[anchor];
        self.clamp();
    }

    /// Act on a key.
    pub fn handle_key(&mut self, key: KeyEvent)
        requires
            old(self).inv(),
            old(self).view_height <= isize::MAX,
        ensures
            final(self).inv(),
            final(self).doc == old(self).doc,
            final(self).view_height == old(self).view_height,
            final(self).view_width == old(self).view_width,
            state_of(*final(self)) == key_step(*old(self), key),
    {
        // Ignore key-release/repeat reports from terminals that send them.
        match key.kind {
            KeyEventKind::Press => {},
            _ => {
                return;
            },
        }
        let ctrl = key.ctrl;
        let page: isize = if self.view_height > 2 {
            (self.view_height - 1) as isize
        } else {
            1
        };
        let hstep = HSTEP as isize;

        match key.code {
            KeyCode::Char(c) => {
                if ctrl && (c == 'c' || c == 'd') {
                    self.should_quit = true;
                } else if c == 'q' {
                    self.should_quit = true;
                } else if c == 'j' {
                    self.scroll_vertical(1);
                } else if c == 'k' {
                    self.scroll_vertical(-1);
                } else if c == 'l' {
                    self.scroll_horizontal(hstep);
                } else if c == 'h' {
                    self.scroll_horizontal(-hstep);
                } else if c == ' ' || c == 'f' {
                    self.scroll_vertical(page);
                } else if c == 'b' {
                    self.scroll_vertical(-page);
                } else if c == 'd' {
                    self.scroll_vertical(page / 2);
                } else if c == 'u' {
                    self.scroll_vertical(-(page / 2));
                } else if c == 'g' {
                    self.top = 0;
                } else if c == 'G' {
                    self.top = self.max_top();
                } else if c == '0' || c == '^' {
                    self.left = 0;
                } else if c == '$' {
                    self.left = self.max_left();
                } else if c == 'x' {
                    self.toggle_readable();
                }
            },
            KeyCode::Esc => self.should_quit = true,
            KeyCode::Down | KeyCode::Enter => self.scroll_vertical(1),
            KeyCode::Up => self.scroll_vertical(-1),
            KeyCode::Right => self.scroll_horizontal(hstep),
            KeyCode::Left => self.scroll_horizontal(-hstep),
            KeyCode::PageDown => self.scroll_vertical(page),
            KeyCode::PageUp => self.scroll_vertical(-page),
            KeyCode::Home => self.top = 0,
            KeyCode::End => self.top = self.max_top(),
            KeyCode::Other => {},
        }
    }
}

} // verus!

verus! {

pub(crate) proof fn lemma_height_at_least_one(row: Seq<DataView>, readable: Seq<bool>, k: int)
    ensures
        height_fold(row, readable, k) >= 1,
    decreases k,
{
    if k > 0 {
        lemma_height_at_least_one(row, readable, k - 1);
    }
}

pub(crate) proof fn lemma_offsets_grow(doc: DocView, readable: Seq<bool>, k: int)
    requires
        0 <= k,
    ensures
        0 <= offset_at(doc, readable, k) <= usize::MAX,
        offset_at(doc, readable, k) <= offset_at(doc, readable, k + 1),
        offset_at(doc, readable, k + 1) < usize::MAX ==> offset_at(doc, readable, k + 1)
            == offset_at(doc, readable, k) + row_height_spec(doc.rows[k], readable),
        offset_at(doc, readable, k + 1) < usize::MAX ==> offset_at(doc, readable, k)
            < offset_at(doc, readable, k + 1),
    decreases k,
{
    if k > 0 {
        lemma_offsets_grow(doc, readable, k - 1);
    }
    let row = doc.rows[k];
    lemma_height_at_least_one(
        row,
        readable,
        if row.len() < readable.len() {
            row.len() as int
        } else {
            readable.len() as int
        },
    );
}

pub(crate) proof fn lemma_offsets_increasing(doc: DocView, readable: Seq<bool>, i: int, j: int)
    requires
        0 <= i < j <= doc.rows.len(),
        total_lines_spec(doc, readable) < usize::MAX,
    ensures
        offset_at(doc, readable, i) < offset_at(doc, readable, j),
        offset_at(doc, readable, j) <= total_lines_spec(doc, readable),
    decreases doc.rows.len() - i,
{
    lemma_offsets_below(doc, readable, j);
    lemma_offsets_below(doc, readable, i + 1);
    lemma_offsets_grow(doc, readable, i);
    if i + 1 < j {
        lemma_offsets_increasing(doc, readable, i + 1, j);
    }
}

/// Lines never run backwards: no row starts after the total.
proof fn lemma_offsets_below(doc: DocView, readable: Seq<bool>, k: int)
    requires
        0 <= k <= doc.rows.len(),
    ensures
        offset_at(doc, readable, k) <= total_lines_spec(doc, readable),
    decreases doc.rows.len() - k,
{
    if k < doc.rows.len() {
        lemma_offsets_grow(doc, readable, k);
        lemma_offsets_below(doc, readable, k + 1);
    }
}

proof fn lemma_rows_started(offs: Seq<int>, line: int)
    requires
        forall|i: int, j: int| 0 <= i < j < offs.len() ==> offs[i] < offs[j],
    ensures
        0 <= rows_started(offs, line) <= offs.len(),
        rows_started(offs, line) > 0 ==> offs[rows_started(offs, line) - 1] <= line,
        rows_started(offs, line) < offs.len() ==> offs[rows_started(offs, line)] > line,
    decreases offs.len(),
{
    if offs.len() > 0 && offs.last() > line {
        let d = offs.drop_last();
        assert forall|i: int, j: int| 0 <= i < j < d.len() implies d[i] < d[j] by {
            assert(d[i] == offs[i] && d[j] == offs[j]);
        }
        lemma_rows_started(d, line);
        let s = rows_started(d, line);
        if s > 0 {
            assert(d[s - 1] == offs[s - 1]);
        }
        if s < d.len() {
            assert(d[s] == offs[s]);
        }
    }
}

/// A line falls in the row whose first line is the last one at or before it:
/// every line of the body belongs to exactly one row, and lines are counted
/// from the row's first.
pub proof fn law_row_at_finds_the_row(doc: DocView, readable: Seq<bool>, line: int)
    requires
        doc.rows.len() > 0,
        0 <= line < total_lines_spec(doc, readable),
        total_lines_spec(doc, readable) < usize::MAX,
    ensures
        ({
            let (row, skip) = row_at_spec(doc, readable, line);
            &&& 0 <= row < doc.rows.len()
            &&& offset_at(doc, readable, row) <= line < offset_at(doc, readable, row + 1)
            &&& skip == line - offset_at(doc, readable, row)
        }),
{
    let offs = offsets_spec(doc, readable);
    let n = doc.rows.len() as int;
    assert forall|i: int, j: int| 0 <= i < j < offs.len() implies offs[i] < offs[j] by {
        lemma_offsets_increasing(doc, readable, i, j);
    }
    lemma_rows_started(offs, line);
    let s = rows_started(offs, line);
    assert(offs[0] == 0);
    assert(offs[n] == total_lines_spec(doc, readable));
}

/// Each row's first line is found to be that row, at its first line.
pub proof fn law_row_at_row_start(doc: DocView, readable: Seq<bool>, r: int)
    requires
        0 <= r < doc.rows.len(),
        total_lines_spec(doc, readable) < usize::MAX,
    ensures
        row_at_spec(doc, readable, offset_at(doc, readable, r)) == (r, 0int),
{
    lemma_offsets_increasing(doc, readable, r, doc.rows.len() as int);
    lemma_offsets_grow(doc, readable, r);
    law_row_at_finds_the_row(doc, readable, offset_at(doc, readable, r));
    let (row, skip) = row_at_spec(doc, readable, offset_at(doc, readable, r));
    if row < r {
        lemma_offsets_increasing(doc, readable, row + 1, r);
        if row + 1 < r {
        }
    } else if row > r {
        lemma_offsets_increasing(doc, readable, r, row);
    }
}

/// A cell that is not JSON shown in its readable form.
pub open spec fn not_readable_json(d: DataView, readable: bool) -> bool {
    !(readable && d is Json)
}

proof fn lemma_height_fold(row: Seq<DataView>, readable: Seq<bool>, k: int)
    requires
        0 <= k <= readable.len(),
        k <= row.len(),
    ensures
        height_fold(row, readable, k) >= 1,
        (forall|i: int| 0 <= i < k ==> not_readable_json(#[trigger] row[i], readable[i]))
            ==> height_fold(row, readable, k) == 1,
        forall|i: int|
            0 <= i < k && readable[i] && (#[trigger] row[i] is Json) ==> height_fold(row, readable, k)
                >= measure_spec(row[i]->Json_0, Layout::Pretty).0,
        height_fold(row, readable, k) == 1 || exists|i: int|
            0 <= i < k && readable[i] && (#[trigger] row[i] is Json) && height_fold(row, readable, k)
                == measure_spec(row[i]->Json_0, Layout::Pretty).0,
    decreases k,
{
    if k > 0 {
        lemma_height_fold(row, readable, k - 1);
    }
}

/// A row is as tall as its tallest cell, and only JSON shown pretty-printed
/// is taller than a line: a row is one line unless it holds such a cell,
/// and then as many lines as the longest of them.
pub proof fn law_only_readable_json_is_tall(row: Seq<DataView>, readable: Seq<bool>)
    ensures
        ({
            let n = if row.len() < readable.len() {
                row.len() as int
            } else {
                readable.len() as int
            };
            let h = row_height_spec(row, readable);
            &&& h >= 1
            &&& (forall|i: int| 0 <= i < n ==> !(readable[i] && (#[trigger] row[i] is Json)))
                ==> h == 1
            &&& forall|i: int|
                0 <= i < n && readable[i] && (#[trigger] row[i] is Json) ==> h >= measure_spec(
                    row[i]->Json_0,
                    Layout::Pretty,
                ).0
            &&& h == 1 || exists|i: int|
                0 <= i < n && readable[i] && (#[trigger] row[i] is Json) && h == measure_spec(
                    row[i]->Json_0,
                    Layout::Pretty,
                ).0
        }),
{
    let n = if row.len() < readable.len() {
        row.len() as int
    } else {
        readable.len() as int
    };
    lemma_height_fold(row, readable, n);
}

proof fn lemma_offsets_one(doc: DocView, readable: Seq<bool>, k: int)
    requires
        0 <= k <= doc.rows.len() < usize::MAX,
        forall|r: int, i: int|
            0 <= r < doc.rows.len() && 0 <= i < readable.len() && i < doc.rows[r].len()
                ==> !(readable[i] && (#[trigger] doc.rows[r][i] is Json)),
    ensures
        offset_at(doc, readable, k) == k,
    decreases k,
{
    if k > 0 {
        lemma_offsets_one(doc, readable, k - 1);
        law_only_readable_json_is_tall(doc.rows[k - 1], readable);
        let row = doc.rows[k - 1];
        assert forall|i: int|
            0 <= i < row.len() && i < readable.len() implies !(readable[i] && (#[trigger] row[i] is Json)) by {
            assert(row[i] == doc.rows[k - 1][i]);
        }
    }
}

/// Without JSON shown pretty-printed every row is one line (so in the form
/// psql printed, and with blobs shown as digests): line `l` is row `l`.
pub proof fn law_one_line_per_row(doc: DocView, readable: Seq<bool>, l: int)
    requires
        forall|r: int, i: int|
            0 <= r < doc.rows.len() && 0 <= i < readable.len() && i < doc.rows[r].len()
                ==> !(readable[i] && (#[trigger] doc.rows[r][i] is Json)),
        doc.rows.len() < usize::MAX,
        0 <= l < doc.rows.len(),
    ensures
        total_lines_spec(doc, readable) == doc.rows.len(),
        row_at_spec(doc, readable, l) == (l, 0int),
{
    let n = doc.rows.len() as int;
    lemma_offsets_one(doc, readable, n);
    lemma_offsets_one(doc, readable, l);
    lemma_offsets_one(doc, readable, l + 1);
    law_row_at_finds_the_row(doc, readable, l);
    let (r, k) = row_at_spec(doc, readable, l);
    lemma_offsets_one(doc, readable, r);
    lemma_offsets_one(doc, readable, r + 1);
}

/// Switching forms keeps the row that was at the top of the screen there,
/// whenever the new layout is long enough to let it stay on top.
pub proof fn law_toggle_keeps_top_row(app: App)
    requires
        app.inv(),
        app.doc@.rows.len() > 0,
        total_lines_spec(app.doc@, toggled(app.doc@, app.readable@)) < usize::MAX,
        offset_at(
            app.doc@,
            toggled(app.doc@, app.readable@),
            row_at_spec(app.doc@, app.readable@, app.top as int).0,
        ) <= max_top_of(
            app.doc@,
            toggled(app.doc@, app.readable@),
            app.view_height as int,
        ),
    ensures
        row_at_spec(
            app.doc@,
            toggle_state(app).readable,
            toggle_state(app).top,
        ) == (row_at_spec(app.doc@, app.readable@, app.top as int).0, 0int),
{
    let doc = app.doc@;
    let rd = app.readable@;
    let anchor = row_at_spec(doc, rd, app.top as int).0;
    assert(0 <= anchor < doc.rows.len());
    law_row_at_row_start(doc, toggled(doc, rd), anchor);
}

/// Switching forms twice from the form psql printed comes back to it.
pub proof fn law_toggle_twice_restores(doc: DocView, readable: Seq<bool>)
    requires
        forall|i: int| 0 <= i < readable.len() ==> !readable[i],
        readable.len() == doc.columns.len(),
    ensures
        toggled(doc, toggled(doc, readable)) == readable,
        forall|i: int|
            0 <= i < readable.len() ==> #[trigger] toggled(doc, readable)[i] == (
            doc.columns[i].kind == DataKind::Json || doc.columns[i].kind == DataKind::Bytes),
{
    let once = toggled(doc, readable);
    if exists|i: int| 0 <= i < once.len() && once[i] {
        assert(toggled(doc, once) =~= readable);
    } else {
        assert(toggled(doc, once) =~= readable);
    }
}

/// A screen that was within bounds stays within them whatever key is pressed:
/// scrolling stops at the last page and the last column.
pub proof fn law_keys_stay_in_bounds(app: App, key: KeyEvent)
    requires
        app.inv(),
        app.top <= max_top_of(app.doc@, app.readable@, app.view_height as int),
        app.left <= max_left_of(app.doc@, app.readable@, app.view_width as int),
    ensures
        0 <= key_step(app, key).top <= max_top_of(
            app.doc@,
            key_step(app, key).readable,
            app.view_height as int,
        ),
        0 <= key_step(app, key).left <= max_left_of(
            app.doc@,
            key_step(app, key).readable,
            app.view_width as int,
        ),
{
    let doc = app.doc@;
    let anchor = row_at_spec(doc, app.readable@, app.top as int).0;
    if anchor >= 0 {
        lemma_offsets_grow(doc, toggled(doc, app.readable@), anchor);
    }
}

/// A key press, with or without Control.
pub open spec fn press(code: KeyCode, ctrl: bool) -> KeyEvent {
    KeyEvent { code, kind: KeyEventKind::Press, ctrl }
}

/// The letter keys do what the keys they stand in for do: `j` and Enter
/// are Down, `k` Up, `l` Right, `h` Left, space and `f` Page Down, `b` Page
/// Up, `g` Home, `G` End, and `q` Escape.
pub proof fn law_letter_keys_match_their_keys(app: App, ctrl: bool)
    ensures
        key_step(app, press(KeyCode::Char('j'), ctrl)) == key_step(app, press(KeyCode::Down, ctrl)),
        key_step(app, press(KeyCode::Enter, ctrl)) == key_step(app, press(KeyCode::Down, ctrl)),
        key_step(app, press(KeyCode::Char('k'), ctrl)) == key_step(app, press(KeyCode::Up, ctrl)),
        key_step(app, press(KeyCode::Char('l'), ctrl)) == key_step(app, press(KeyCode::Right, ctrl)),
        key_step(app, press(KeyCode::Char('h'), ctrl)) == key_step(app, press(KeyCode::Left, ctrl)),
        key_step(app, press(KeyCode::Char(' '), ctrl)) == key_step(
            app,
            press(KeyCode::PageDown, ctrl),
        ),
        key_step(app, press(KeyCode::Char('f'), ctrl)) == key_step(
            app,
            press(KeyCode::PageDown, ctrl),
        ),
        key_step(app, press(KeyCode::Char('b'), ctrl)) == key_step(app, press(KeyCode::PageUp, ctrl)),
        key_step(app, press(KeyCode::Char('g'), ctrl)) == key_step(app, press(KeyCode::Home, ctrl)),
        key_step(app, press(KeyCode::Char('G'), ctrl)) == key_step(app, press(KeyCode::End, ctrl)),
        key_step(app, press(KeyCode::Char('q'), ctrl)) == key_step(app, press(KeyCode::Esc, ctrl)),
{
}

/// Down moves the screen one line down and Up one line up, Right and Left
/// a column step of 30; neither goes past the last page or column, nor
/// before the first; Home and End go to the first and the last page. Only
/// the position moves.
pub proof fn law_scroll_keys_move_by_their_step(app: App, ctrl: bool)
    requires
        app.top <= max_top_of(app.doc@, app.readable@, app.view_height as int),
        app.left <= max_left_of(app.doc@, app.readable@, app.view_width as int),
    ensures
        ({
            let mt = max_top_of(app.doc@, app.readable@, app.view_height as int);
            let ml = max_left_of(app.doc@, app.readable@, app.view_width as int);
            let down = key_step(app, press(KeyCode::Down, ctrl));
            let up = key_step(app, press(KeyCode::Up, ctrl));
            let right = key_step(app, press(KeyCode::Right, ctrl));
            let left = key_step(app, press(KeyCode::Left, ctrl));
            &&& down.top == if app.top < mt {
                app.top + 1
            } else {
                mt
            }
            &&& up.top == if app.top > 0 {
                app.top - 1
            } else {
                0
            }
            &&& right.left == if app.left + 30 < ml {
                app.left + 30
            } else {
                ml
            }
            &&& left.left == if app.left >= 30 {
                app.left - 30
            } else {
                0
            }
            &&& down.left == app.left && up.left == app.left
            &&& right.top == app.top && left.top == app.top
            &&& down.readable == app.readable@ && !down.should_quit == !app.should_quit
            &&& key_step(app, press(KeyCode::Home, ctrl)).top == 0
            &&& key_step(app, press(KeyCode::End, ctrl)).top == mt
        }),
{
}

proof fn lemma_readable_width(doc: DocView, i: int, k: int)
    requires
        0 <= k <= doc.rows.len(),
    ensures
        readable_width(doc, i, k) >= cap(width_of(doc.columns[i].name) as int),
        forall|r: int| 0 <= r < k ==> readable_width(doc, i, k) >= readable_cell_width(
            #[trigger] doc.rows[r][i],
        ),
    decreases k,
{
    if k > 0 {
        lemma_readable_width(doc, i, k - 1);
    }
}

/// In a table read from text, every column is at least as wide as its name,
/// in either form, and as every cell as it is shown in that form: the
/// form psql printed, or the readable one.
pub proof fn law_columns_fit_names_and_cells(text: Seq<char>, readable: Seq<bool>)
    requires
        crate::input::table_spec(text) is Some,
        readable.len() == crate::input::table_spec(text)->0.columns.len(),
    ensures
        ({
            let d = crate::input::table_spec(text)->0;
            let ws = widths_spec(d, readable);
            &&& ws.len() == d.columns.len()
            &&& forall|i: int|
                0 <= i < d.columns.len() ==> #[trigger] ws[i] >= cap(
                    width_of(d.columns[i].name) as int,
                )
            &&& forall|i: int, r: int|
                0 <= i < d.columns.len() && 0 <= r < d.rows.len() && readable[i] ==> ws[i]
                    >= readable_cell_width(#[trigger] d.rows[r][i])
            &&& forall|i: int, r: int|
                0 <= i < d.columns.len() && 0 <= r < d.rows.len() && !readable[i] ==> ws[i] >= cap(
                    width_of(render_spec(#[trigger] d.rows[r][i])) as int,
                )
        }),
{
    let d = crate::input::table_spec(text)->0;
    let ws = widths_spec(d, readable);
    assert forall|i: int| 0 <= i < d.columns.len() implies {
        &&& ws[i] >= cap(width_of(d.columns[i].name) as int)
        &&& forall|r: int| 0 <= r < d.rows.len() && readable[i] ==> ws[i] >= readable_cell_width(
            #[trigger] d.rows[r][i],
        )
        &&& forall|r: int| 0 <= r < d.rows.len() && !readable[i] ==> ws[i] >= cap(
            width_of(render_spec(#[trigger] d.rows[r][i])) as int,
        )
    } by {
        lemma_readable_width(d, i, d.rows.len() as int);
        crate::input::law_column_width(d.rows, i, cap(width_of(d.columns[i].name) as int));
    }
    assert forall|i: int|
        0 <= i < d.columns.len() implies #[trigger] ws[i] >= cap(width_of(d.columns[i].name) as int) by {
        lemma_readable_width(d, i, d.rows.len() as int);
        crate::input::law_column_width(d.rows, i, cap(width_of(d.columns[i].name) as int));
    }
}

/// Only presses count: a repeat or a release changes nothing.
pub proof fn law_only_presses_count(app: App, key: KeyEvent)
    requires
        key.kind != KeyEventKind::Press,
    ensures
        key_step(app, key) == state_of(app),
{
}

} // verus!
