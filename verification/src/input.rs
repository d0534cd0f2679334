//! Reading the table to page through.
//!
//! Input is psql's aligned output. It is parsed once, up front, into typed
//! cells: after this module nothing looks at the original text, and the screen
//! is laid out from the values themselves.

use vstd::prelude::*;

use crate::chars::{chars_of, string_of};
use crate::data::{kind_of, merge, merge_spec, parse_spec, render_spec, Data, DataKind, DataView};
use crate::lines::{
    cell, cell_spec, field_spans, is_row_count, is_row_count_spec, is_rule, is_rule_spec,
    lines_up_spec, sanitize_chars, sanitize_spec, separators_line_up, span_view, spans_spec,
};
use crate::width::{cap, display_width, width_of};

verus! {

/// `std::io::Error`, carried through [`Error::Io`] and never looked into.
#[verifier::external_type_specification]
#[verifier::external_body]
pub struct ExIoError(std::io::Error);

/// A column of the table.
pub struct Column {
    pub name: String,
    /// What the cells of this column hold, or [`DataKind::Text`] if they
    /// disagree.
    pub kind: DataKind,
    /// Display width of the widest cell, the name included.
    pub width: usize,
}

pub struct ColumnView {
    pub name: Seq<char>,
    pub kind: DataKind,
    pub width: int,
}

impl View for Column {
    type V = ColumnView;

    open spec fn view(&self) -> ColumnView {
        ColumnView { name: self.name@, kind: self.kind, width: self.width as int }
    }
}

/// A table of parsed cells.
///
/// Every row has one entry per column: a row cut short by a ragged line is
/// padded with [`Data::Null`], so `rows[r][c]` is always the cell of column
/// `c`.
pub struct Document {
    pub columns: Vec<Column>,
    pub rows: Vec<Vec<Data>>,
}

pub struct DocView {
    pub columns: Seq<ColumnView>,
    pub rows: Seq<Seq<DataView>>,
}

pub open spec fn row_view(r: Vec<Data>) -> Seq<DataView> {
    r@.map_values(|d: Data| d@)
}

impl View for Document {
    type V = DocView;

    open spec fn view(&self) -> DocView {
        DocView {
            columns: self.columns@.map_values(|c: Column| c@),
            rows: self.rows@.map_values(|r: Vec<Data>| row_view(r)),
        }
    }
}

impl Document {
    /// Every row has one cell per column.
    pub open spec fn is_rectangular(&self) -> bool {
        forall|r: int| 0 <= r < self.rows@.len() ==> #[trigger] self.rows@[r]@.len() == self.columns@.len()
    }
}

#[derive(Debug)]
pub enum Error {
    Io(std::io::Error),
    /// The input has no `----+----` rule, so there is no table to show.
    NotATable,
}

impl From<std::io::Error> for Error {
    fn from(e: std::io::Error) -> (r: Error)
        ensures
            r == Error::Io(e),
    {
        Error::Io(e)
    }
}

impl vstd::std_specs::convert::FromSpecImpl<std::io::Error> for Error {
    open spec fn obeys_from_spec() -> bool {
        true
    }

    open spec fn from_spec(v: std::io::Error) -> Error {
        Error::Io(v)
    }
}

/// `s` cut at every `\n`, as `str::split('\n')` cuts it: always at least
/// one piece, and an empty one after a final `\n`.
pub open spec fn split_lines(s: Seq<char>) -> Seq<Seq<char>>
    decreases s.len(),
{
    if s.len() == 0 {
        seq![seq![]]
    } else {
        let prev = split_lines(s.drop_last());
        if s.last() == '\n' {
            prev.push(seq![])
        } else {
            prev.update(prev.len() - 1, prev.last().push(s.last()))
        }
    }
}

/// A line without the `\r` of a `\r\n` ending.
pub open spec fn strip_cr(l: Seq<char>) -> Seq<char> {
    if l.len() > 0 && l.last() == '\r' {
        l.drop_last()
    } else {
        l
    }
}

/// The lines of the input, each without its `\r` and sanitized.
pub open spec fn clean_lines(text: Seq<char>) -> Seq<Seq<char>> {
    split_lines(text).map_values(|l: Seq<char>| sanitize_spec(strip_cr(l)))
}

/// `r` is the first rule line.
pub open spec fn is_first_rule(lines: Seq<Seq<char>>, r: int) -> bool {
    &&& 0 <= r < lines.len()
    &&& is_rule_spec(lines[r])
    &&& forall|k: int| 0 <= k < r ==> !is_rule_spec(#[trigger] lines[k])
}

/// Where the `+` of a rule sit, left to right.
pub open spec fn plus_positions(s: Seq<char>) -> Seq<usize>
    decreases s.len(),
{
    if s.len() == 0 {
        seq![]
    } else if s.last() == '+' {
        plus_positions(s.drop_last()).push((s.len() - 1) as usize)
    } else {
        plus_positions(s.drop_last())
    }
}

/// A blank line or psql's `(n rows)` footer ends the rows.
pub open spec fn ends_rows(l: Seq<char>) -> bool {
    l.len() == 0 || is_row_count_spec(l)
}

/// `e` is the first line at or after `start` that ends the rows (or the
/// end of the input).
pub open spec fn is_body_end(lines: Seq<Seq<char>>, start: int, e: int) -> bool {
    &&& start <= e <= lines.len()
    &&& e < lines.len() ==> ends_rows(lines[e])
    &&& forall|k: int| start <= k < e ==> !ends_rows(#[trigger] lines[k])
}

/// `e` is where the rows under the rule on line `rule` end.
pub open spec fn is_rows_end(lines: Seq<Seq<char>>, rule: int, e: int) -> bool {
    is_body_end(lines, rule + 1, e)
}

/// One row: the cell under each span, parsed.
pub open spec fn row_spec(line: Seq<char>, spans: Seq<(int, int)>) -> Seq<DataView> {
    spans.map_values(|sp: (int, int)| parse_spec(cell_spec(line, sp)))
}

/// The kind of column `i`: the kinds of its cells merged, top to bottom.
pub open spec fn kind_fold(rows: Seq<Seq<DataView>>, i: int) -> DataKind
    decreases rows.len(),
{
    if rows.len() == 0 {
        DataKind::Null
    } else {
        merge_spec(kind_fold(rows.drop_last(), i), kind_of(rows.last()[i]))
    }
}

/// Two kinds a column cannot hold together: both non-NULL, different, and
/// not a whole number beside a decimal.
pub open spec fn kinds_clash(a: DataKind, b: DataKind) -> bool {
    &&& a != DataKind::Null
    &&& b != DataKind::Null
    &&& a != b
    &&& !(a == DataKind::Integer && b == DataKind::Decimal)
    &&& !(a == DataKind::Decimal && b == DataKind::Integer)
}

/// A column kind that has seen a cell of kind `a`: still `a`, gone to text,
/// or a decimal column that `a`, a whole number, joined.
pub open spec fn kind_after(f: DataKind, a: DataKind) -> bool {
    f == a || f == DataKind::Text || (a == DataKind::Integer && f == DataKind::Decimal)
}

proof fn lemma_kind_fold_take(rows: Seq<Seq<DataView>>, i: int, j: int)
    requires
        0 < j <= rows.len(),
    ensures
        kind_fold(rows.take(j), i) == merge_spec(
            kind_fold(rows.take(j - 1), i),
            kind_of(rows[j - 1][i]),
        ),
{
    assert(rows.take(j).drop_last() =~= rows.take(j - 1));
}

/// Once a column has seen a cell of kind `a`, its kind stays after `a`.
proof fn lemma_kind_after(rows: Seq<Seq<DataView>>, i: int, r: int, j: int)
    requires
        0 <= r < j <= rows.len(),
        kind_of(rows[r][i]) != DataKind::Null,
    ensures
        kind_after(kind_fold(rows.take(j), i), kind_of(rows[r][i])),
    decreases j,
{
    lemma_kind_fold_take(rows, i, j);
    if j - 1 > r {
        lemma_kind_after(rows, i, r, j - 1);
    }
}

/// Once a column has seen two kinds that clash, it is text for good.
proof fn lemma_kind_clash(rows: Seq<Seq<DataView>>, i: int, r1: int, r2: int, j: int)
    requires
        0 <= r1 < r2 < j <= rows.len(),
        kinds_clash(kind_of(rows[r1][i]), kind_of(rows[r2][i])),
    ensures
        kind_fold(rows.take(j), i) == DataKind::Text,
    decreases j,
{
    lemma_kind_fold_take(rows, i, j);
    if j - 1 > r2 {
        lemma_kind_clash(rows, i, r1, r2, j - 1);
    } else {
        lemma_kind_after(rows, i, r1, r2);
    }
}

proof fn lemma_kind_agree(rows: Seq<Seq<DataView>>, i: int, k: DataKind, j: int)
    requires
        0 <= j <= rows.len(),
        forall|r: int| 0 <= r < rows.len() ==> kind_of(#[trigger] rows[r][i]) == DataKind::Null
            || kind_of(rows[r][i]) == k,
    ensures
        kind_fold(rows.take(j), i) == if exists|r: int| 0 <= r < j && kind_of(#[trigger] rows[r][i]) == k {
            k
        } else {
            DataKind::Null
        },
    decreases j,
{
    if j > 0 {
        lemma_kind_fold_take(rows, i, j);
        lemma_kind_agree(rows, i, k, j - 1);
        assert(kind_of(rows[j - 1][i]) == DataKind::Null || kind_of(rows[j - 1][i]) == k);
        if exists|r: int| 0 <= r < j && kind_of(#[trigger] rows[r][i]) == k {
            if kind_of(rows[j - 1][i]) != k {
                let r = choose|r: int| 0 <= r < j && kind_of(#[trigger] rows[r][i]) == k;
                assert(r < j - 1);
            }
        }
    } else {
        assert(rows.take(0).len() == 0);
    }
}

proof fn lemma_kind_numbers(rows: Seq<Seq<DataView>>, i: int, j: int)
    requires
        0 <= j <= rows.len(),
        forall|r: int| 0 <= r < rows.len() ==> {
            let k = kind_of(#[trigger] rows[r][i]);
            k == DataKind::Null || k == DataKind::Integer || k == DataKind::Decimal
        },
    ensures
        ({
            let f = kind_fold(rows.take(j), i);
            &&& f == DataKind::Null || f == DataKind::Integer || f == DataKind::Decimal
            &&& (exists|r: int| 0 <= r < j && kind_of(#[trigger] rows[r][i]) == DataKind::Decimal)
                ==> f == DataKind::Decimal
        }),
    decreases j,
{
    if j > 0 {
        lemma_kind_fold_take(rows, i, j);
        lemma_kind_numbers(rows, i, j - 1);
        let k = kind_of(rows[j - 1][i]);
        if exists|r: int| 0 <= r < j && kind_of(#[trigger] rows[r][i]) == DataKind::Decimal {
            if k != DataKind::Decimal {
                let r = choose|r: int| 0 <= r < j && kind_of(#[trigger] rows[r][i]) == DataKind::Decimal;
                assert(r < j - 1);
            }
        }
    } else {
        assert(rows.take(0).len() == 0);
    }
}

/// A column's kind is whatever its cells agree on: NULLs abstain (a column
/// of nothing but NULLs is NULL), whole numbers among decimals make a
/// decimal column, and two kinds that clash make it text.
pub proof fn law_column_kind(rows: Seq<Seq<DataView>>, i: int, k: DataKind)
    ensures
        (forall|r: int| 0 <= r < rows.len() ==> kind_of(#[trigger] rows[r][i]) == DataKind::Null
            || kind_of(rows[r][i]) == k) ==> kind_fold(rows, i) == if exists|r: int|
            0 <= r < rows.len() && kind_of(#[trigger] rows[r][i]) == k {
            k
        } else {
            DataKind::Null
        },
        (forall|r: int| 0 <= r < rows.len() ==> {
            let c = kind_of(#[trigger] rows[r][i]);
            c == DataKind::Null || c == DataKind::Integer || c == DataKind::Decimal
        }) && (exists|r: int| 0 <= r < rows.len() && kind_of(#[trigger] rows[r][i]) == DataKind::Decimal)
            ==> kind_fold(rows, i) == DataKind::Decimal,
        (exists|r1: int, r2: int|
            0 <= r1 < rows.len() && 0 <= r2 < rows.len() && kinds_clash(
                kind_of(#[trigger] rows[r1][i]),
                kind_of(#[trigger] rows[r2][i]),
            )) ==> kind_fold(rows, i) == DataKind::Text,
{
    let n = rows.len() as int;
    assert(rows.take(n) =~= rows);
    if forall|r: int| 0 <= r < rows.len() ==> kind_of(#[trigger] rows[r][i]) == DataKind::Null
        || kind_of(rows[r][i]) == k {
        lemma_kind_agree(rows, i, k, n);
    }
    if forall|r: int| 0 <= r < rows.len() ==> {
        let c = kind_of(#[trigger] rows[r][i]);
        c == DataKind::Null || c == DataKind::Integer || c == DataKind::Decimal
    } {
        lemma_kind_numbers(rows, i, n);
    }
    if exists|r1: int, r2: int|
        0 <= r1 < rows.len() && 0 <= r2 < rows.len() && kinds_clash(
            kind_of(#[trigger] rows[r1][i]),
            kind_of(#[trigger] rows[r2][i]),
        ) {
        let (r1, r2) = choose|r1: int, r2: int|
            0 <= r1 < rows.len() && 0 <= r2 < rows.len() && kinds_clash(
                kind_of(#[trigger] rows[r1][i]),
                kind_of(#[trigger] rows[r2][i]),
            );
        if r1 < r2 {
            lemma_kind_clash(rows, i, r1, r2, n);
        } else {
            assert(kinds_clash(kind_of(rows[r2][i]), kind_of(rows[r1][i])));
            lemma_kind_clash(rows, i, r2, r1, n);
        }
    }
}

/// A table has one column per `+` in its rule, and one more; every row has
/// a cell for each, a field a short line does not reach reading as NULL.
pub proof fn law_one_column_per_field(text: Seq<char>)
    requires
        table_spec(text) is Some,
    ensures
        ({
            let lines = clean_lines(text);
            let d = table_spec(text)->0;
            let r = choose|r: int| is_first_rule(lines, r);
            &&& is_first_rule(lines, r)
            &&& d.columns.len() == plus_positions(lines[r]).len() + 1
            &&& forall|k: int| 0 <= k < d.rows.len() ==> (#[trigger] d.rows[k]).len() == d.columns.len()
        }),
{
    let lines = clean_lines(text);
    let r = choose|r: int| is_first_rule(lines, r);
    let seps = plus_positions(lines[r]);
    let spans = spans_spec(lines[r].len() as int, seps);
    let e = choose|e: int| #[trigger] is_rows_end(lines, r, e);
    let d = table_spec(text)->0;
    assert forall|k: int| 0 <= k < d.rows.len() implies (#[trigger] d.rows[k]).len()
        == d.columns.len() by {
        assert(d.rows[k] == row_spec(lines.subrange(r + 1, e)[k], spans));
    }
}

/// A column is as wide as the widest of its cells as written out, or its
/// name if that is wider.
pub proof fn law_column_width(rows: Seq<Seq<DataView>>, i: int, name_width: int)
    ensures
        width_fold(rows, i, name_width) >= name_width,
        forall|r: int| 0 <= r < rows.len() ==> width_fold(rows, i, name_width) >= cap(
            width_of(render_spec(#[trigger] rows[r][i])) as int,
        ),
        width_fold(rows, i, name_width) == name_width || exists|r: int|
            0 <= r < rows.len() && width_fold(rows, i, name_width) == cap(
                width_of(render_spec(#[trigger] rows[r][i])) as int,
            ),
    decreases rows.len(),
{
    if rows.len() > 0 {
        let p = rows.drop_last();
        law_column_width(p, i, name_width);
        assert forall|r: int| 0 <= r < rows.len() implies width_fold(rows, i, name_width) >= cap(
            width_of(render_spec(#[trigger] rows[r][i])) as int,
        ) by {
            if r < p.len() {
                assert(rows[r] == p[r]);
            }
        }
        if width_fold(rows, i, name_width) != name_width {
            if width_fold(rows, i, name_width) == width_fold(p, i, name_width) {
                let r = choose|r: int|
                    0 <= r < p.len() && width_fold(p, i, name_width) == cap(
                        width_of(render_spec(#[trigger] p[r][i])) as int,
                    );
                assert(rows[r] == p[r]);
            } else {
                assert(width_fold(rows, i, name_width) == cap(
                    width_of(render_spec(rows[rows.len() - 1][i])) as int,
                ));
            }
        }
    }
}

/// The width of column `i`: the widest of its cells as they are written
/// out, and of its name.
pub open spec fn width_fold(rows: Seq<Seq<DataView>>, i: int, name_width: int) -> int
    decreases rows.len(),
{
    if rows.len() == 0 {
        name_width
    } else {
        let w = cap(width_of(render_spec(rows.last()[i])) as int);
        let m = width_fold(rows.drop_last(), i, name_width);
        if w > m {
            w
        } else {
            m
        }
    }
}

/// The table in psql's aligned output `text`, if it holds one: the rows
/// under the first rule, up to a blank line or the row count, cut into
/// fields where the rule has its `+`, with the line above the rule as the
/// names. No table if there is no rule, nothing above it, or a `+` without a
/// `|` above it.
pub open spec fn table_spec(text: Seq<char>) -> Option<DocView> {
    let lines = clean_lines(text);
    if !(exists|r: int| is_first_rule(lines, r)) {
        None
    } else {
        let r = choose|r: int| is_first_rule(lines, r);
        if r == 0 {
            None
        } else {
            let header = lines[r - 1];
            let rule = lines[r];
            let seps = plus_positions(rule);
            if !lines_up_spec(header, seps) {
                None
            } else {
                let spans = spans_spec(rule.len() as int, seps);
                let e = choose|e: int| #[trigger] is_rows_end(lines, r, e);
                let rows = lines.subrange(r + 1, e).map_values(
                    |l: Seq<char>| row_spec(l, spans),
                );
                Some(
                    DocView {
                        columns: Seq::new(
                            spans.len(),
                            |i: int|
                                {
                                    let name = cell_spec(header, spans[i]);
                                    ColumnView {
                                        name,
                                        kind: kind_fold(rows, i),
                                        width: width_fold(rows, i, cap(width_of(name) as int)),
                                    }
                                },
                        ),
                        rows,
                    },
                )
            }
        }
    }
}

pub open spec fn lines_view(v: Seq<Vec<char>>) -> Seq<Seq<char>> {
    v.map_values(|l: Vec<char>| l@)
}

pub proof fn lemma_map_push<A, B>(s: Seq<A>, x: A, f: spec_fn(A) -> B)
    ensures
        s.push(x).map_values(f) == s.map_values(f).push(f(x)),
{
    assert(s.push(x).map_values(f) =~= s.map_values(f).push(f(x)));
}

pub(crate) proof fn lemma_split_len(s: Seq<char>)
    ensures
        split_lines(s).len() >= 1,
    decreases s.len(),
{
    if s.len() > 0 {
        lemma_split_len(s.drop_last());
    }
}

fn strip_cr_exec(l: &mut Vec<char>)
    ensures
        final(l)@ == strip_cr(old(l)@),
{
    if l.len() > 0 && l[l.len() - 1] == '\r' {
        l.pop();
    }
}

/// The input cut into lines, each without its `\r` and sanitized.
fn clean_lines_exec(text: &[char]) -> (lines: Vec<Vec<char>>)
    ensures
        lines_view(lines@) == clean_lines(text@),
{
    let mut lines: Vec<Vec<char>> = Vec::new();
    let mut cur: Vec<char> = Vec::new();
    let mut i: usize = 0;
    while i < text.len()
        invariant
            i <= text@.len(),
            split_lines(text@.take(i as int)).len() >= 1,
            lines_view(lines@) == split_lines(text@.take(i as int)).drop_last().map_values(
                |l: Seq<char>| sanitize_spec(strip_cr(l)),
            ),
            cur@ == split_lines(text@.take(i as int)).last(),
        decreases text@.len() - i,
    {
        let ghost prev = split_lines(text@.take(i as int));
        assert(text@.take(i + 1).drop_last() =~= text@.take(i as int));
        let c = text[i];
        let ghost old_lines = lines@;
        if c == '\n' {
            let mut done = cur;
            strip_cr_exec(&mut done);
            let cleaned = sanitize_chars(done.as_slice());
            lines.push(cleaned);
            cur = Vec::new();
            proof {
                let next = split_lines(text@.take(i + 1));
                let g = |l: Seq<char>| sanitize_spec(strip_cr(l));
                assert(next == prev.push(seq![]));
                assert(next.drop_last() =~= prev);
                assert(lines@ == old_lines.push(lines@.last()));
                lemma_map_push(old_lines, lines@.last(), |l: Vec<char>| l@);
                assert(prev =~= prev.drop_last().push(prev.last()));
                lemma_map_push(prev.drop_last(), prev.last(), g);
                assert(lines_view(lines@) == next.drop_last().map_values(g));
                assert(cur@ =~= next.last());
            }
        } else {
            cur.push(c);
            proof {
                let next = split_lines(text@.take(i + 1));
                assert(next.drop_last() =~= prev.drop_last());
            }
        }
        i += 1;
    }
    assert(text@.take(text@.len() as int) =~= text@);
    let mut last = cur;
    strip_cr_exec(&mut last);
    let cleaned = sanitize_chars(last.as_slice());
    let ghost all = split_lines(text@);
    let ghost old_lines = lines@;
    lines.push(cleaned);
    proof {
        let g = |l: Seq<char>| sanitize_spec(strip_cr(l));
        assert(all =~= all.drop_last().push(all.last()));
        lemma_map_push(old_lines, lines@.last(), |l: Vec<char>| l@);
        lemma_map_push(all.drop_last(), all.last(), g);
        assert(lines_view(lines@) == clean_lines(text@));
    }
    lines
}

/// Index of the first rule line, if any.
fn find_rule(lines: &Vec<Vec<char>>) -> (r: Option<usize>)
    ensures
        match r {
            Some(k) => is_first_rule(lines_view(lines@), k as int),
            None => !(exists|k: int| is_first_rule(lines_view(lines@), k)),
        },
{
    let ghost lv = lines_view(lines@);
    let mut k: usize = 0;
    while k < lines.len()
        invariant
            k <= lines@.len(),
            lv == lines_view(lines@),
            forall|j: int| 0 <= j < k ==> !is_rule_spec(#[trigger] lv[j]),
        decreases lines@.len() - k,
    {
        if is_rule(lines[k].as_slice()) {
            return Some(k);
        }
        k += 1;
    }
    None
}

/// Where the `+` of `rule` sit.
fn plus_positions_exec(rule: &[char]) -> (seps: Vec<usize>)
    ensures
        seps@ == plus_positions(rule@),
        forall|k: int| 0 <= k < seps@.len() ==> #[trigger] seps@[k] < rule@.len(),
{
    let mut seps: Vec<usize> = Vec::new();
    let mut i: usize = 0;
    while i < rule.len()
        invariant
            i <= rule@.len(),
            seps@ == plus_positions(rule@.take(i as int)),
            forall|k: int| 0 <= k < seps@.len() ==> #[trigger] seps@[k] < i,
        decreases rule@.len() - i,
    {
        assert(rule@.take(i + 1).drop_last() =~= rule@.take(i as int));
        if rule[i] == '+' {
            seps.push(i);
        }
        i += 1;
    }
    assert(rule@.take(rule@.len() as int) =~= rule@);
    seps
}

pub(crate) proof fn lemma_first_rule_unique(lines: Seq<Seq<char>>, a: int, b: int)
    requires
        is_first_rule(lines, a),
        is_first_rule(lines, b),
    ensures
        a == b,
{
    if a < b {
        assert(!is_rule_spec(lines[a]));
    }
    if b < a {
        assert(!is_rule_spec(lines[b]));
    }
}

pub(crate) proof fn lemma_body_end_unique(lines: Seq<Seq<char>>, start: int, a: int, b: int)
    requires
        is_body_end(lines, start, a),
        is_body_end(lines, start, b),
    ensures
        a == b,
{
    if a < b {
        assert(!ends_rows(lines[a]));
    }
    if b < a {
        assert(!ends_rows(lines[b]));
    }
}

/// Parse one row: the cell under each span.
fn read_row(line: &[char], spans: &Vec<(usize, usize)>) -> (row: Vec<Data>)
    requires
        forall|k: int| 0 <= k < spans@.len() ==> #[trigger] spans@[k].0 <= spans@[k].1,
    ensures
        row_view(row) == row_spec(line@, span_view(spans@)),
{
    let mut row: Vec<Data> = Vec::new();
    let mut k: usize = 0;
    while k < spans.len()
        invariant
            k <= spans@.len(),
            forall|j: int| 0 <= j < spans@.len() ==> #[trigger] spans@[j].0 <= spans@[j].1,
            row_view(row) == row_spec(line@, span_view(spans@)).take(k as int),
        decreases spans@.len() - k,
    {
        let text = cell(line, spans[k]);
        let s = string_of(text.as_slice());
        let d = Data::parse(s.as_str());
        let ghost old_row = row@;
        row.push(d);
        proof {
            lemma_map_push(old_row, d, |d: Data| d@);
            assert(row_view(row) =~= row_spec(line@, span_view(spans@)).take(k + 1));
        }
        k += 1;
    }
    assert(row_spec(line@, span_view(spans@)).take(spans@.len() as int) =~= row_spec(
        line@,
        span_view(spans@),
    ));
    row
}

pub open spec fn rows_view(rows: Seq<Vec<Data>>) -> Seq<Seq<DataView>> {
    rows.map_values(|r: Vec<Data>| row_view(r))
}

/// The rows under the rule: every line from `start` up to a blank line, the
/// row count or the end of the input.
fn read_rows(lines: &Vec<Vec<char>>, start: usize, spans: &Vec<(usize, usize)>) -> (r: (
    Vec<Vec<Data>>,
    Ghost<int>,
))
    requires
        start <= lines@.len(),
        forall|k: int| 0 <= k < spans@.len() ==> #[trigger] spans@[k].0 <= spans@[k].1,
    ensures
        is_body_end(lines_view(lines@), start as int, r.1@),
        rows_view(r.0@) == lines_view(lines@).subrange(start as int, r.1@).map_values(
            |l: Seq<char>| row_spec(l, span_view(spans@)),
        ),
{
    let ghost lv = lines_view(lines@);
    let ghost sv = span_view(spans@);
    let mut rows: Vec<Vec<Data>> = Vec::new();
    let mut k = start;
    while k < lines.len() && !(lines[k].len() == 0 || is_row_count(lines[k].as_slice()))
        invariant
            start <= k <= lines@.len(),
            lv == lines_view(lines@),
            sv == span_view(spans@),
            forall|j: int| 0 <= j < spans@.len() ==> #[trigger] spans@[j].0 <= spans@[j].1,
            forall|j: int| start <= j < k ==> !ends_rows(#[trigger] lv[j]),
            rows_view(rows@) == lv.subrange(start as int, k as int).map_values(
                |l: Seq<char>| row_spec(l, sv),
            ),
        decreases lines@.len() - k,
    {
        let row = read_row(lines[k].as_slice(), spans);
        let ghost old_rows = rows@;
        assert(lv[k as int] == lines@[k as int]@);
        rows.push(row);
        proof {
            lemma_map_push(old_rows, row, |r: Vec<Data>| row_view(r));
            let g = |l: Seq<char>| row_spec(l, sv);
            assert(lv.subrange(start as int, k + 1) =~= lv.subrange(start as int, k as int).push(
                lv[k as int],
            ));
            lemma_map_push(lv.subrange(start as int, k as int), lv[k as int], g);
            assert(rows_view(rows@) == lv.subrange(start as int, k + 1).map_values(g));
        }
        k += 1;
    }
    (rows, Ghost(k as int))
}

/// The columns: each one's name, kind and width.
fn make_columns(header: &[char], spans: &Vec<(usize, usize)>, rows: &Vec<Vec<Data>>) -> (cols:
    Vec<Column>)
    requires
        forall|k: int| 0 <= k < spans@.len() ==> #[trigger] spans@[k].0 <= spans@[k].1,
        forall|r: int| 0 <= r < rows@.len() ==> #[trigger] rows@[r]@.len() == spans@.len(),
    ensures
        cols@.map_values(|c: Column| c@) == Seq::new(
            spans@.len(),
            |i: int|
                {
                    let name = cell_spec(header@, span_view(spans@)[i]);
                    ColumnView {
                        name,
                        kind: kind_fold(rows_view(rows@), i),
                        width: width_fold(rows_view(rows@), i, cap(width_of(name) as int)),
                    }
                },
        ),
{
    let ghost rv = rows_view(rows@);
    let ghost want = Seq::new(
        spans@.len(),
        |i: int|
            {
                let name = cell_spec(header@, span_view(spans@)[i]);
                ColumnView {
                    name,
                    kind: kind_fold(rv, i),
                    width: width_fold(rv, i, cap(width_of(name) as int)),
                }
            },
    );
    let mut cols: Vec<Column> = Vec::new();
    let mut i: usize = 0;
    while i < spans.len()
        invariant
            i <= spans@.len(),
            rv == rows_view(rows@),
            forall|k: int| 0 <= k < spans@.len() ==> #[trigger] spans@[k].0 <= spans@[k].1,
            forall|r: int| 0 <= r < rows@.len() ==> #[trigger] rows@[r]@.len() == spans@.len(),
            want == Seq::new(
                spans@.len(),
                |i: int|
                    {
                        let name = cell_spec(header@, span_view(spans@)[i]);
                        ColumnView {
                            name,
                            kind: kind_fold(rv, i),
                            width: width_fold(rv, i, cap(width_of(name) as int)),
                        }
                    },
            ),
            cols@.map_values(|c: Column| c@) == want.take(i as int),
        decreases spans@.len() - i,
    {
        let name_chars = cell(header, spans[i]);
        let name = string_of(name_chars.as_slice());
        let mut kind = DataKind::Null;
        let mut width = display_width(name.as_str());
        let ghost name_width = width as int;
        let mut j: usize = 0;
        while j < rows.len()
            invariant
                j <= rows@.len(),
                i < spans@.len(),
                rv == rows_view(rows@),
                forall|r: int| 0 <= r < rows@.len() ==> #[trigger] rows@[r]@.len() == spans@.len(),
                kind == kind_fold(rv.take(j as int), i as int),
                width as int == width_fold(rv.take(j as int), i as int, name_width),
            decreases rows@.len() - j,
        {
            assert(rv.take(j + 1).drop_last() =~= rv.take(j as int));
            assert(rows@[j as int]@.len() == spans@.len());
            let cell_data = &rows[j][i];
            kind = merge(kind, cell_data.kind());
            let shown = cell_data.render();
            let w = display_width(shown.as_str());
            if w > width {
                width = w;
            }
            j += 1;
        }
        assert(rv.take(rows@.len() as int) =~= rv);
        let col = Column { name, kind, width };
        let ghost old_cols = cols@;
        cols.push(col);
        proof {
            lemma_map_push(old_cols, col, |c: Column| c@);
            assert(want.take(i + 1) =~= want.take(i as int).push(want[i as int]));
            assert(cols@.map_values(|c: Column| c@) == want.take(i + 1));
        }
        i += 1;
    }
    assert(want.take(spans@.len() as int) =~= want);
    cols
}

/// The text `String::from_utf8_lossy` decodes `bytes` into: the UTF-8 read
/// as it is, every invalid sequence replaced by U+FFFD.
pub uninterp spec fn utf8_lossy_text(bytes: Seq<u8>) -> Seq<char>;

/// `String::from_utf8_lossy`, owned. Only the dependence on `bytes` is
/// claimed; the decoding itself (and where U+FFFD goes) is not restated.
#[verifier::external_body]
fn utf8_lossy(bytes: &[u8]) -> (s: String)
    ensures
        s@ == utf8_lossy_text(bytes@),
{
    String::from_utf8_lossy(bytes).into_owned()
}

impl Document {
    /// Parse psql's aligned output as read, byte for byte: bytes that are
    /// not UTF-8 are replaced rather than refused.
    pub fn from_bytes(bytes: &[u8]) -> (r: Result<Document, Error>)
        ensures
            match r {
                Ok(d) => table_spec(utf8_lossy_text(bytes@)) == Some(d@) && d.is_rectangular(),
                Err(e) => table_spec(utf8_lossy_text(bytes@)) is None && e is NotATable,
            },
    {
        let text = utf8_lossy(bytes);
        Document::from_str(text.as_str())
    }
}

impl Document {
    /// Parse psql's aligned output.
    ///
    /// psql prints ` a | b ` over `---+---`, so the `+` in the rule mark where
    /// the fields end and each field carries one space of padding on either
    /// side. Anything above the header or below the last row — blank lines,
    /// `(13 rows)`, timings — is dropped.
    #[verifier::rlimit(40)]
    pub fn from_str(text: &str) -> (r: Result<Document, Error>)
        ensures
            match r {
                Ok(d) => table_spec(text@) == Some(d@) && d.is_rectangular(),
                Err(e) => table_spec(text@) is None && e is NotATable,
            },
    {
        let chars = chars_of(text);
        let lines = clean_lines_exec(chars.as_slice());
        let ghost lv = lines_view(lines@);
        let rule = match find_rule(&lines) {
            Some(r) => r,
            None => return Err(Error::NotATable),
        };
        proof {
            let c = choose|r: int| is_first_rule(lv, r);
            lemma_first_rule_unique(lv, c, rule as int);
        }
        if rule == 0 {
            return Err(Error::NotATable);
        }
        assert(lv.len() == lines@.len());
        assert(is_first_rule(lv, rule as int));
        let nlines = lines.len();
        assert(rule < nlines);
        let header = &lines[rule - 1];
        let rule_line = &lines[rule];
        // A rule is `-` and `+` only, so its positions are display columns.
        let separators = plus_positions_exec(rule_line.as_slice());
        if !separators_line_up(header.as_slice(), separators.as_slice()) {
            return Err(Error::NotATable);
        }
        let spans = field_spans(rule_line.len(), separators.as_slice());
        // Rows run until the blank line or `(13 rows)` psql puts underneath.
        let (rows, Ghost(e)) = read_rows(&lines, rule + 1, &spans);
        proof {
            let c = choose|e: int| #[trigger] is_rows_end(lv, rule as int, e);
            assert(is_rows_end(lv, rule as int, e));
            lemma_body_end_unique(lv, rule + 1, c, e);
            let sub = lv.subrange(rule + 1, e);
            let g = |l: Seq<char>| row_spec(l, span_view(spans@));
            assert(rows_view(rows@) == sub.map_values(g));
            assert forall|r: int| 0 <= r < rows@.len() implies #[trigger] rows@[r]@.len()
                == spans@.len() by {
                assert(rows_view(rows@)[r] == row_view(rows@[r]));
                assert(rows_view(rows@).len() == sub.len());
                assert(sub.map_values(g)[r] == g(sub[r]));
                assert(row_view(rows@[r]).len() == rows@[r]@.len());
                assert(g(sub[r]).len() == span_view(spans@).len());
            }
        }
        let columns = make_columns(header.as_slice(), &spans, &rows);
        let doc = Document { columns, rows };
        proof {
            assert(doc@.columns =~= table_spec(text@)->0.columns);
            assert(doc@.rows =~= table_spec(text@)->0.rows);
        }
        Ok(doc)
    }
}

} // verus!

verus! {

/// `parts` joined with `sep` between them.
pub open spec fn join(parts: Seq<Seq<char>>, sep: Seq<char>) -> Seq<char>
    decreases parts.len(),
{
    if parts.len() == 0 {
        seq![]
    } else if parts.len() == 1 {
        parts[0]
    } else {
        join(parts.drop_last(), sep) + sep + parts.last()
    }
}

/// `n` copies of `c`.
pub open spec fn repeat(c: char, n: int) -> Seq<char> {
    Seq::new(n as nat, |i: int| c)
}

/// The widths of the laid-out columns: the widest cell of each.
pub open spec fn psql_width(rows: Seq<Seq<Seq<char>>>, i: int, k: int) -> int
    decreases k,
{
    if k <= 0 {
        0
    } else {
        let w = cap(width_of(rows[k - 1][i]) as int);
        let m = psql_width(rows, i, k - 1);
        if w > m {
            w
        } else {
            m
        }
    }
}

pub open spec fn psql_widths(rows: Seq<Seq<Seq<char>>>) -> Seq<int> {
    Seq::new(rows[0].len(), |i: int| psql_width(rows, i, rows.len() as int))
}

/// One line: each cell padded on the right to its column's width (in
/// characters, as `format!("{:<w$}")` pads) with a space either side, joined
/// by `|`.
pub open spec fn psql_line(cells: Seq<Seq<char>>, widths: Seq<int>) -> Seq<char> {
    join(
        Seq::new(
            widths.len(),
            |i: int|
                seq![' '] + cells[i] + repeat(
                    ' ',
                    if widths[i] > cells[i].len() {
                        widths[i] - cells[i].len()
                    } else {
                        0
                    },
                ) + seq![' '],
        ),
        seq!['|'],
    )
}

/// Cells laid out the way psql would: the first row as the header, a rule
/// under it, the other rows, the row count and a blank line.
pub open spec fn psql_spec(rows: Seq<Seq<Seq<char>>>) -> Seq<char> {
    let widths = psql_widths(rows);
    let body = Seq::new((rows.len() - 1) as nat, |r: int| psql_line(rows[r + 1], widths));
    psql_line(rows[0], widths) + seq!['\n'] + join(
        Seq::new(widths.len(), |i: int| repeat('-', cap(widths[i] + 2))),
        seq!['+'],
    ) + seq!['\n'] + join(body, seq!['\n']) + seq!['\n', '('] + crate::scalars::nat_text(
        (rows.len() - 1) as nat,
    ) + seq![' ', 'r', 'o', 'w', 's', ')', '\n', '\n']
}

pub open spec fn table_text(rows: Seq<Vec<&str>>) -> Seq<Seq<Seq<char>>> {
    rows.map_values(|r: Vec<&str>| r@.map_values(|s: &str| s@))
}

pub(crate) proof fn lemma_join_push(parts: Seq<Seq<char>>, sep: Seq<char>, p: Seq<char>)
    ensures
        join(parts.push(p), sep) == if parts.len() == 0 {
            p
        } else {
            join(parts, sep) + sep + p
        },
{
    assert(parts.push(p).drop_last() =~= parts);
    if parts.len() == 0 {
        assert(parts.push(p)[0] == p);
    }
}

/// Append `n` copies of `c`.
fn push_repeat(out: &mut String, c: char, n: usize)
    ensures
        final(out)@ == old(out)@ + repeat(c, n as int),
{
    let mut k: usize = 0;
    while k < n
        invariant
            k <= n,
            out@ == old(out)@ + repeat(c, k as int),
        decreases n - k,
    {
        crate::chars::push_char(out, c);
        k += 1;
        assert(old(out)@ + repeat(c, k as int) =~= (old(out)@ + repeat(c, k - 1)).push(c));
    }
}

fn push_str(out: &mut String, s: &str)
    ensures
        final(out)@ == old(out)@ + s@,
{
    out.append(s);
}

/// Append one laid-out line.
fn push_psql_line(out: &mut String, cells: &Vec<&str>, widths: &Vec<usize>)
    requires
        cells@.len() >= widths@.len(),
    ensures
        final(out)@ == old(out)@ + psql_line(
            cells@.map_values(|s: &str| s@),
            widths@.map_values(|w: usize| w as int),
        ),
{
    let ghost cv = cells@.map_values(|s: &str| s@);
    let ghost wv = widths@.map_values(|w: usize| w as int);
    let ghost parts = Seq::new(
        wv.len(),
        |i: int|
            seq![' '] + cv[i] + repeat(
                ' ',
                if wv[i] > cv[i].len() {
                    wv[i] - cv[i].len()
                } else {
                    0
                },
            ) + seq![' '],
    );
    let mut i: usize = 0;
    while i < widths.len()
        invariant
            i <= widths@.len() <= cells@.len(),
            cv == cells@.map_values(|s: &str| s@),
            wv == widths@.map_values(|w: usize| w as int),
            parts == Seq::new(
                wv.len(),
                |i: int|
                    seq![' '] + cv[i] + repeat(
                        ' ',
                        if wv[i] > cv[i].len() {
                            wv[i] - cv[i].len()
                        } else {
                            0
                        },
                    ) + seq![' '],
            ),
            out@ == old(out)@ + join(parts.take(i as int), seq!['|']),
        decreases widths@.len() - i,
    {
        let ghost before = out@;
        if i > 0 {
            crate::chars::push_char(out, '|');
        }
        let ghost mid = out@;
        crate::chars::push_char(out, ' ');
        let c: &str = cells[i];
        push_str(out, c);
        let n = c.unicode_len();
        let pad = if widths[i] > n {
            widths[i] - n
        } else {
            0
        };
        push_repeat(out, ' ', pad);
        crate::chars::push_char(out, ' ');
        proof {
            lemma_join_push(parts.take(i as int), seq!['|'], parts[i as int]);
            assert(parts.take(i + 1) =~= parts.take(i as int).push(parts[i as int]));
            assert(out@ =~= mid + parts[i as int]);
            if i > 0 {
                assert(mid =~= before + seq!['|']);
            } else {
                assert(mid =~= before);
            }
        }
        i += 1;
    }
    assert(parts.take(widths@.len() as int) =~= parts);
}

/// Lay cells out the way psql would, for tests that need input to parse.
///
/// What it lays out reads back: a table of printable ASCII, under the
/// conditions `readable_table` spells out, parses into its own cells.
#[verifier::rlimit(40)]
pub fn psql(rows: &[Vec<&str>]) -> (out: String)
    requires
        rows@.len() >= 1,
        forall|r: int| 0 <= r < rows@.len() ==> #[trigger] rows@[r]@.len() >= rows@[0]@.len(),
    ensures
        out@ == psql_spec(table_text(rows@)),
        crate::readback::readable_table(table_text(rows@)) && crate::readback::ascii_table(
            table_text(rows@),
        ) && out@.len() <= usize::MAX ==> crate::readback::reads_back_as(
            out@,
            table_text(rows@),
        ),
{
    let ghost t = table_text(rows@);
    let n = rows[0].len();
    let mut widths: Vec<usize> = Vec::new();
    let mut i: usize = 0;
    while i < n
        invariant
            i <= n == rows@[0]@.len(),
            rows@.len() >= 1,
            t == table_text(rows@),
            forall|r: int| 0 <= r < rows@.len() ==> #[trigger] rows@[r]@.len() >= rows@[0]@.len(),
            widths@.map_values(|w: usize| w as int) == psql_widths(t).take(i as int),
        decreases n - i,
    {
        let mut w: usize = 0;
        let mut r: usize = 0;
        while r < rows.len()
            invariant
                r <= rows@.len(),
                i < n == rows@[0]@.len(),
                t == table_text(rows@),
                forall|r: int|
                    0 <= r < rows@.len() ==> #[trigger] rows@[r]@.len() >= rows@[0]@.len(),
                w as int == psql_width(t, i as int, r as int),
            decreases rows@.len() - r,
        {
            assert(rows@[r as int]@.len() >= n);
            assert(t[r as int][i as int] == rows@[r as int]@[i as int]@);
            let d = display_width(rows[r][i]);
            if d > w {
                w = d;
            }
            r += 1;
        }
        let ghost old_widths = widths@;
        widths.push(w);
        proof {
            lemma_map_push(old_widths, w, |w: usize| w as int);
            assert(psql_widths(t).take(i + 1) =~= psql_widths(t).take(i as int).push(
                psql_widths(t)[i as int],
            ));
        }
        i += 1;
    }
    assert(psql_widths(t).take(n as int) =~= psql_widths(t));
    let ghost wv = widths@.map_values(|w: usize| w as int);
    assert(wv == psql_widths(t));

    let mut out = String::new();
    assert(t[0] == rows@[0]@.map_values(|s: &str| s@));
    push_psql_line(&mut out, &rows[0], &widths);
    crate::chars::push_char(&mut out, '\n');
    let ghost head = out@;

    let ghost dashes = Seq::new(wv.len(), |i: int| repeat('-', cap(wv[i] + 2)));
    let mut k: usize = 0;
    while k < widths.len()
        invariant
            k <= widths@.len(),
            wv == widths@.map_values(|w: usize| w as int),
            dashes == Seq::new(wv.len(), |i: int| repeat('-', cap(wv[i] + 2))),
            out@ == head + join(dashes.take(k as int), seq!['+']),
        decreases widths@.len() - k,
    {
        let ghost before = out@;
        if k > 0 {
            crate::chars::push_char(&mut out, '+');
        }
        let ghost mid = out@;
        push_repeat(&mut out, '-', widths[k].saturating_add(2));
        proof {
            lemma_join_push(dashes.take(k as int), seq!['+'], dashes[k as int]);
            assert(dashes.take(k + 1) =~= dashes.take(k as int).push(dashes[k as int]));
            if k > 0 {
                assert(mid =~= before + seq!['+']);
            }
        }
        k += 1;
    }
    assert(dashes.take(widths@.len() as int) =~= dashes);
    crate::chars::push_char(&mut out, '\n');
    let ghost after_rule = out@;

    let ghost body = Seq::new((t.len() - 1) as nat, |r: int| psql_line(t[r + 1], wv));
    let mut r: usize = 1;
    while r < rows.len()
        invariant
            1 <= r <= rows@.len(),
            t == table_text(rows@),
            wv == widths@.map_values(|w: usize| w as int),
            widths@.len() == rows@[0]@.len(),
            forall|r: int| 0 <= r < rows@.len() ==> #[trigger] rows@[r]@.len() >= rows@[0]@.len(),
            body == Seq::new((t.len() - 1) as nat, |r: int| psql_line(t[r + 1], wv)),
            out@ == after_rule + join(body.take(r - 1), seq!['\n']),
        decreases rows@.len() - r,
    {
        let ghost before = out@;
        if r > 1 {
            crate::chars::push_char(&mut out, '\n');
        }
        let ghost mid = out@;
        assert(rows@[r as int]@.len() >= widths@.len());
        assert(t[r as int] == rows@[r as int]@.map_values(|s: &str| s@));
        push_psql_line(&mut out, &rows[r], &widths);
        proof {
            lemma_join_push(body.take(r - 1), seq!['\n'], body[r - 1]);
            assert(body.take(r as int) =~= body.take(r - 1).push(body[r - 1]));
            if r > 1 {
                assert(mid =~= before + seq!['\n']);
            }
        }
        r += 1;
    }
    assert(body.take(rows@.len() - 1) =~= body);
    crate::chars::push_char(&mut out, '\n');
    crate::chars::push_char(&mut out, '(');
    let count = crate::scalars::usize_to_string(rows.len() - 1);
    push_str(&mut out, count.as_str());
    let tail = [' ', 'r', 'o', 'w', 's', ')', '\n', '\n'];
    let mut j: usize = 0;
    let ghost before_tail = out@;
    while j < 8
        invariant
            j <= 8,
            tail@ == seq![' ', 'r', 'o', 'w', 's', ')', '\n', '\n'],
            out@ == before_tail + tail@.take(j as int),
        decreases 8 - j,
    {
        crate::chars::push_char(&mut out, tail[j]);
        j += 1;
        assert(out@ =~= before_tail + tail@.take(j as int));
    }
    assert(tail@.take(8) =~= tail@);
    assert(out@ =~= psql_spec(t));
    crate::readback::ascii_is_narrow();
    proof {
        if crate::readback::readable_table(t) && crate::readback::ascii_table(t) && out@.len()
            <= usize::MAX {
            crate::readback::lemma_ascii_narrow(t);
            crate::readback::law_psql_reads_back(t);
        }
    }
    out
}

} // verus!
