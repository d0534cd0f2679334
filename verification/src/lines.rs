//! Working on the lines of psql's output: cleaning them up, telling the rule
//! and the footer apart from rows, and cutting a line into its fields.

use vstd::prelude::*;

use crate::chars::{chars_of, is_control, is_whitespace, spec_is_control, spec_is_whitespace, string_of};
use crate::width::{
    cap, char_columns, char_width, column_index, is_column_index, lemma_width_take_step,
    spaces, width_of,
};

verus! {

/// Tab stop used when expanding `\t`.
pub const TAB_STOP: usize = 8;

/// Expanding tabs and dropping control characters, left to right: the text
/// written so far and the display column reached (stopping at `usize::MAX`).
pub open spec fn sanitize_fold(s: Seq<char>) -> (Seq<char>, int)
    decreases s.len(),
{
    if s.len() == 0 {
        (seq![], 0)
    } else {
        let (out, col) = sanitize_fold(s.drop_last());
        let c = s.last();
        if c == '\t' {
            let pad = 8 - col % 8;
            (out + spaces(pad), cap(col + pad))
        } else if spec_is_control(c) {
            (out, col)
        } else {
            (out.push(c), cap(col + char_columns(c)))
        }
    }
}

pub open spec fn sanitize_spec(s: Seq<char>) -> Seq<char> {
    sanitize_fold(s).0
}

proof fn lemma_sanitize_step(s: Seq<char>, i: int)
    requires
        0 <= i < s.len(),
    ensures
        sanitize_fold(s.take(i + 1)) == ({
            let (out, col) = sanitize_fold(s.take(i));
            let c = s[i];
            if c == '\t' {
                let pad = 8 - col % 8;
                (out + spaces(pad), cap(col + pad))
            } else if spec_is_control(c) {
                (out, col)
            } else {
                (out.push(c), cap(col + char_columns(c)))
            }
        }),
{
    assert(s.take(i + 1).drop_last() =~= s.take(i));
}

proof fn lemma_sanitize_fold_col(s: Seq<char>)
    ensures
        0 <= sanitize_fold(s).1 <= usize::MAX,
        forall|j: int|
            0 <= j < sanitize_fold(s).0.len() ==> !spec_is_control(#[trigger] sanitize_fold(s).0[j]),
    decreases s.len(),
{
    if s.len() > 0 {
        lemma_sanitize_fold_col(s.drop_last());
        let (out, col) = sanitize_fold(s.drop_last());
        let c = s.last();
        if c == '\t' {
            let pad = 8 - col % 8;
            assert forall|j: int| 0 <= j < (out + spaces(pad)).len() implies !spec_is_control(
                #[trigger] (out + spaces(pad))[j],
            ) by {
                if j >= out.len() {
                    assert((out + spaces(pad))[j] == ' ');
                }
            }
        } else if !spec_is_control(c) {
            assert forall|j: int| 0 <= j < out.push(c).len() implies !spec_is_control(
                #[trigger] out.push(c)[j],
            ) by {
                if j < out.len() {
                    assert(out.push(c)[j] == out[j]);
                }
            }
        }
    }
}

proof fn lemma_sanitize_clean(s: Seq<char>)
    requires
        forall|i: int| 0 <= i < s.len() ==> !spec_is_control(#[trigger] s[i]),
    ensures
        sanitize_fold(s).0 == s,
    decreases s.len(),
{
    if s.len() > 0 {
        let p = s.drop_last();
        assert forall|i: int| 0 <= i < p.len() implies !spec_is_control(#[trigger] p[i]) by {
            assert(p[i] == s[i]);
        }
        lemma_sanitize_clean(p);
        assert(!spec_is_control(s[s.len() - 1]));
        assert(p.push(s.last()) =~= s);
    }
}

/// Sanitizing settles at once: text without control characters comes
/// through unchanged, so sanitizing twice is sanitizing once.
pub proof fn law_sanitize_settles(s: Seq<char>)
    ensures
        (forall|i: int| 0 <= i < s.len() ==> !spec_is_control(#[trigger] s[i])) ==> sanitize_spec(s)
            == s,
        sanitize_spec(sanitize_spec(s)) == sanitize_spec(s),
{
    if forall|i: int| 0 <= i < s.len() ==> !spec_is_control(#[trigger] s[i]) {
        lemma_sanitize_clean(s);
    }
    lemma_sanitize_fold_col(s);
    lemma_sanitize_clean(sanitize_spec(s));
}

/// Expand tabs and drop control characters, over characters.
pub(crate) fn sanitize_chars(line: &[char]) -> (out: Vec<char>)
    ensures
        out@ == sanitize_spec(line@),
{
    let mut out: Vec<char> = Vec::new();
    let mut col: usize = 0;
    let mut i: usize = 0;
    while i < line.len()
        invariant
            i <= line@.len(),
            (out@, col as int) == sanitize_fold(line@.take(i as int)),
        decreases line@.len() - i,
    {
        proof {
            lemma_sanitize_step(line@, i as int);
            lemma_sanitize_fold_col(line@.take(i as int));
        }
        let ch = line[i];
        let ghost before = out@;
        if ch == '\t' {
            let pad = TAB_STOP - (col % TAB_STOP);
            let mut k: usize = 0;
            while k < pad
                invariant
                    k <= pad,
                    out@ == before + spaces(k as int),
                decreases pad - k,
            {
                out.push(' ');
                k += 1;
                assert(out@ =~= before + spaces(k as int));
            }
            col = col.saturating_add(pad);
        } else if is_control(ch) {
        } else {
            out.push(ch);
            col = col.saturating_add(char_width(ch));
        }
        i += 1;
    }
    assert(line@.take(line@.len() as int) =~= line@);
    out
}

/// Expand tabs and drop control characters.
///
/// Tabs are expanded to the next multiple of eight display columns; what
/// comes out holds no control characters at all.
pub fn sanitize(line: &str) -> (out: String)
    ensures
        out@ == sanitize_spec(line@),
        forall|j: int| 0 <= j < out@.len() ==> !spec_is_control(#[trigger] out@[j]),
{
    let chars = chars_of(line);
    let cleaned = sanitize_chars(chars.as_slice());
    proof {
        lemma_sanitize_fold_col(line@);
    }
    string_of(cleaned.as_slice())
}

/// A line of only `-` and `+`, with at least one `-`.
pub open spec fn is_rule_spec(l: Seq<char>) -> bool {
    &&& l.len() > 0
    &&& forall|i: int| 0 <= i < l.len() ==> (#[trigger] l[i] == '-' || l[i] == '+')
    &&& exists|i: int| 0 <= i < l.len() && #[trigger] l[i] == '-'
}

pub(crate) fn is_rule(line: &[char]) -> (b: bool)
    ensures
        b == is_rule_spec(line@),
{
    if line.len() == 0 {
        return false;
    }
    let mut dash = false;
    let mut i: usize = 0;
    while i < line.len()
        invariant
            i <= line@.len(),
            forall|j: int| 0 <= j < i ==> (#[trigger] line@[j] == '-' || line@[j] == '+'),
            dash == exists|j: int| 0 <= j < i && #[trigger] line@[j] == '-',
        decreases line@.len() - i,
    {
        let c = line[i];
        if c != '-' && c != '+' {
            return false;
        }
        if c == '-' {
            dash = true;
        }
        i += 1;
    }
    dash
}

/// Leading whitespace removed.
pub open spec fn trim_front(s: Seq<char>) -> Seq<char>
    decreases s.len(),
{
    if s.len() > 0 && spec_is_whitespace(s[0]) {
        trim_front(s.drop_first())
    } else {
        s
    }
}

/// Trailing whitespace removed.
pub open spec fn trim_back(s: Seq<char>) -> Seq<char>
    decreases s.len(),
{
    if s.len() > 0 && spec_is_whitespace(s.last()) {
        trim_back(s.drop_last())
    } else {
        s
    }
}

/// `str::trim`: whitespace (Unicode's `White_Space`) removed from both ends.
pub open spec fn trim_spec(s: Seq<char>) -> Seq<char> {
    trim_back(trim_front(s))
}

pub(crate) proof fn lemma_trim_front_skip(s: Seq<char>, i: int)
    requires
        0 <= i <= s.len(),
        forall|j: int| 0 <= j < i ==> spec_is_whitespace(#[trigger] s[j]),
    ensures
        trim_front(s) == trim_front(s.skip(i)),
    decreases i,
{
    if i > 0 {
        assert(spec_is_whitespace(s[0]));
        assert(s.drop_first().skip(i - 1) =~= s.skip(i));
        assert forall|j: int| 0 <= j < i - 1 implies spec_is_whitespace(
            #[trigger] s.drop_first()[j],
        ) by {
            assert(s.drop_first()[j] == s[j + 1]);
        }
        lemma_trim_front_skip(s.drop_first(), i - 1);
    } else {
        assert(s.skip(0) =~= s);
    }
}

pub(crate) proof fn lemma_trim_back_take(s: Seq<char>, i: int)
    requires
        0 <= i <= s.len(),
        forall|j: int| i <= j < s.len() ==> spec_is_whitespace(#[trigger] s[j]),
    ensures
        trim_back(s) == trim_back(s.take(i)),
    decreases s.len() - i,
{
    if i < s.len() {
        assert(s.drop_last().take(i) =~= s.take(i));
        lemma_trim_back_take(s.drop_last(), i);
    } else {
        assert(s.take(i) =~= s);
    }
}

/// `str::trim` over a range of characters: the trimmed part of
/// `s[from..to]`, as a pair of indices.
pub(crate) fn trim_range(s: &[char], from: usize, to: usize) -> (r: (usize, usize))
    requires
        from <= to <= s@.len(),
    ensures
        from <= r.0 <= r.1 <= to,
        s@.subrange(r.0 as int, r.1 as int) == trim_spec(s@.subrange(from as int, to as int)),
{
    let ghost t = s@.subrange(from as int, to as int);
    let mut lo = from;
    while lo < to && is_whitespace(s[lo])
        invariant
            from <= lo <= to <= s@.len(),
            t == s@.subrange(from as int, to as int),
            forall|j: int| 0 <= j < lo - from ==> spec_is_whitespace(#[trigger] t[j]),
        decreases to - lo,
    {
        lo += 1;
    }
    proof {
        lemma_trim_front_skip(t, lo - from);
        assert(t.skip(lo - from) =~= s@.subrange(lo as int, to as int));
    }
    let ghost u = s@.subrange(lo as int, to as int);
    assert(trim_front(u) == u);
    let mut hi = to;
    while hi > lo && is_whitespace(s[hi - 1])
        invariant
            lo <= hi <= to <= s@.len(),
            u == s@.subrange(lo as int, to as int),
            forall|j: int| hi - lo <= j < u.len() ==> spec_is_whitespace(#[trigger] u[j]),
        decreases hi - lo,
    {
        hi -= 1;
    }
    proof {
        lemma_trim_back_take(u, hi - lo);
        assert(u.take(hi - lo) =~= s@.subrange(lo as int, hi as int));
    }
    (lo, hi)
}

/// psql's row count footer, e.g. `(13 rows)`.
pub open spec fn is_row_count_spec(l: Seq<char>) -> bool {
    let t = trim_spec(l);
    let one = seq![' ', 'r', 'o', 'w', ')'];
    let many = seq![' ', 'r', 'o', 'w', 's', ')'];
    &&& t.len() > 0
    &&& t[0] == '('
    &&& ((t.len() >= 5 && t.skip(t.len() - 5) == one) || (t.len() >= 6 && t.skip(t.len() - 6)
        == many))
}

fn ends_with(s: &[char], lo: usize, hi: usize, suffix: &[char]) -> (b: bool)
    requires
        lo <= hi <= s@.len(),
    ensures
        b == (hi - lo >= suffix@.len() && s@.subrange(lo as int, hi as int).skip(
            (hi - lo) - suffix@.len(),
        ) == suffix@),
{
    let n = suffix.len();
    if hi - lo < n {
        return false;
    }
    let base = hi - n;
    let mut k: usize = 0;
    while k < n
        invariant
            k <= n == suffix@.len(),
            lo <= base,
            base + n == hi <= s@.len(),
            forall|j: int| 0 <= j < k ==> s@[base + j] == suffix@[j],
        decreases n - k,
    {
        if s[base + k] != suffix[k] {
            assert(s@.subrange(lo as int, hi as int).skip((hi - lo) - n)[k as int] == s@[base + k]);
            return false;
        }
        k += 1;
    }
    assert(s@.subrange(lo as int, hi as int).skip((hi - lo) - n) =~= suffix@);
    true
}

pub(crate) fn is_row_count(line: &[char]) -> (b: bool)
    ensures
        b == is_row_count_spec(line@),
{
    let (lo, hi) = trim_range(line, 0, line.len());
    assert(line@.subrange(0, line@.len() as int) =~= line@);
    let ghost t = trim_spec(line@);
    assert(t == line@.subrange(lo as int, hi as int));
    if hi == lo || line[lo] != '(' {
        return false;
    }
    let one = [' ', 'r', 'o', 'w', ')'];
    let many = [' ', 'r', 'o', 'w', 's', ')'];
    assert(one@ =~= seq![' ', 'r', 'o', 'w', ')']);
    assert(many@ =~= seq![' ', 'r', 'o', 'w', 's', ')']);
    ends_with(line, lo, hi, &one) || ends_with(line, lo, hi, &many)
}

/// The display columns each field covers, given where the separators sit:
/// the fields lie between the separators, less one space of padding on
/// either side. A field too narrow to have any yields an empty span.
pub open spec fn spans_spec(width: int, seps: Seq<usize>) -> Seq<(int, int)> {
    Seq::new(
        seps.len() + 1,
        |k: int|
            {
                let start = if k == 0 {
                    0
                } else {
                    seps[k - 1] + 1
                };
                let end = if k < seps.len() {
                    seps[k] as int
                } else {
                    width
                };
                let from = if start + 1 < end {
                    start + 1
                } else {
                    end
                };
                let to = if end - 1 > from {
                    end - 1
                } else {
                    from
                };
                (from, to)
            },
    )
}

/// The fields a rule marks out run left to right without overlapping: one
/// more field than separators, each starting no later than it ends and
/// ending no later than the next one starts, none past the rule's end.
pub proof fn law_field_spans_in_order(width: int, seps: Seq<usize>)
    requires
        width >= 0,
        forall|i: int, j: int| 0 <= i < j < seps.len() ==> seps[i] < seps[j],
        forall|i: int| 0 <= i < seps.len() ==> #[trigger] seps[i] < width,
    ensures
        spans_spec(width, seps).len() == seps.len() + 1,
        forall|k: int|
            0 <= k < seps.len() + 1 ==> {
                let sp = #[trigger] spans_spec(width, seps)[k];
                &&& 0 <= sp.0 <= sp.1 <= width
                &&& k < seps.len() ==> sp.1 <= seps[k]
            },
        forall|k: int|
            0 <= k < seps.len() ==> #[trigger] spans_spec(width, seps)[k].1 <= spans_spec(
                width,
                seps,
            )[k + 1].0,
{
    let sp = spans_spec(width, seps);
    assert forall|k: int| 0 <= k < seps.len() implies #[trigger] sp[k].1 <= sp[k + 1].0 by {
        if k > 0 {
            assert(seps[k - 1] < seps[k]);
        }
        if k + 1 < seps.len() {
            assert(seps[k] < seps[k + 1]);
        }
    }
    assert forall|k: int| 0 <= k < seps.len() + 1 implies {
        let s = #[trigger] sp[k];
        &&& 0 <= s.0 <= s.1 <= width
        &&& k < seps.len() ==> s.1 <= seps[k]
    } by {
        if k > 0 {
            assert(seps[k - 1] < width);
            if k < seps.len() {
                assert(seps[k - 1] < seps[k]);
            }
        }
    }
}

pub open spec fn span_view(spans: Seq<(usize, usize)>) -> Seq<(int, int)> {
    spans.map_values(|p: (usize, usize)| (p.0 as int, p.1 as int))
}

/// The display columns each field covers, given where the separators sit.
pub(crate) fn field_spans(rule_width: usize, separators: &[usize]) -> (spans: Vec<(usize, usize)>)
    requires
        forall|k: int| 0 <= k < separators@.len() ==> #[trigger] separators@[k] < rule_width,
    ensures
        span_view(spans@) == spans_spec(rule_width as int, separators@),
        forall|k: int| 0 <= k < spans@.len() ==> #[trigger] spans@[k].0 <= spans@[k].1,
{
    let mut spans: Vec<(usize, usize)> = Vec::new();
    let mut start: usize = 0;
    let n = separators.len();
    let mut k: usize = 0;
    loop
        invariant_except_break
            k <= n,
            n == separators@.len(),
            forall|j: int| 0 <= j < n ==> #[trigger] separators@[j] < rule_width,
            start == if k == 0 {
                0
            } else {
                separators@[k - 1] + 1
            },
            spans@.len() == k,
            forall|j: int| 0 <= j < k ==> #[trigger] spans@[j].0 <= spans@[j].1,
            span_view(spans@) == spans_spec(rule_width as int, separators@).take(k as int),
        ensures
            forall|j: int| 0 <= j < spans@.len() ==> #[trigger] spans@[j].0 <= spans@[j].1,
            span_view(spans@) == spans_spec(rule_width as int, separators@).take(n + 1),
        decreases n - k,
    {
        let end = if k < n {
            separators[k]
        } else {
            rule_width
        };
        // Drop the one space of padding on either side.
        let from = if start < end {
            start + 1
        } else {
            end
        };
        let to = if end.saturating_sub(1) > from {
            end - 1
        } else {
            from
        };
        spans.push((from, to));
        assert(span_view(spans@) =~= spans_spec(rule_width as int, separators@).take(k + 1));
        if k == n {
            break;
        }
        start = end + 1;
        k += 1;
    }
    assert(spans_spec(rule_width as int, separators@).take(n + 1) =~= spans_spec(
        rule_width as int,
        separators@,
    ));
    spans
}

/// The character index where display column `col` starts in `s`.
pub open spec fn column_index_spec(s: Seq<char>, col: int) -> int {
    choose|r: int| is_column_index(s, col, r)
}

pub proof fn lemma_column_index_unique(s: Seq<char>, c1: int, r1: int, c2: int, r2: int)
    requires
        is_column_index(s, c1, r1),
        is_column_index(s, c2, r2),
        c1 <= c2,
    ensures
        r1 <= r2,
        c1 == c2 ==> r1 == r2,
{
    if r2 < r1 {
        assert(cap(width_of(s.take(r2)) as int) < c1);
    }
    if c1 == c2 && r1 < r2 {
        assert(cap(width_of(s.take(r1)) as int) < c2);
    }
}

pub(crate) fn column_at(s: &[char], col: usize) -> (r: usize)
    ensures
        r as int == column_index_spec(s@, col as int),
        is_column_index(s@, col as int, r as int),
        r <= s@.len(),
{
    let r = column_index(s, col);
    proof {
        let c = column_index_spec(s@, col as int);
        lemma_column_index_unique(s@, col as int, r as int, col as int, c);
    }
    r
}

/// Each separator has a `|` above it in the header (at the character where
/// its display column starts).
pub open spec fn lines_up_spec(header: Seq<char>, seps: Seq<usize>) -> bool {
    forall|k: int|
        0 <= k < seps.len() ==> {
            let i = column_index_spec(header, #[trigger] seps[k] as int);
            i < header.len() && header[i] == '|'
        }
}

/// Check the header has a `|` above every separator, which is what tells a
/// real table apart from prose that happens to sit above a line of dashes.
pub(crate) fn separators_line_up(header: &[char], separators: &[usize]) -> (b: bool)
    ensures
        b == lines_up_spec(header@, separators@),
{
    let mut k: usize = 0;
    while k < separators.len()
        invariant
            k <= separators@.len(),
            forall|j: int|
                0 <= j < k ==> {
                    let i = column_index_spec(header@, #[trigger] separators@[j] as int);
                    i < header@.len() && header@[i] == '|'
                },
        decreases separators@.len() - k,
    {
        let i = column_at(header, separators[k]);
        if i >= header.len() || header[i] != '|' {
            return false;
        }
        k += 1;
    }
    true
}

/// The text of one field of `line`, padding trimmed off.
pub open spec fn cell_spec(line: Seq<char>, span: (int, int)) -> Seq<char> {
    trim_spec(
        line.subrange(column_index_spec(line, span.0), column_index_spec(line, span.1)),
    )
}

/// The text of one field of `line`, padding trimmed off.
pub(crate) fn cell(line: &[char], span: (usize, usize)) -> (t: Vec<char>)
    requires
        span.0 <= span.1,
    ensures
        t@ == cell_spec(line@, (span.0 as int, span.1 as int)),
{
    let start = column_at(line, span.0);
    let end = column_at(line, span.1);
    proof {
        lemma_column_index_unique(line@, span.0 as int, start as int, span.1 as int, end as int);
    }
    let (lo, hi) = trim_range(line, start, end);
    let mut out: Vec<char> = Vec::new();
    let mut i = lo;
    while i < hi
        invariant
            lo <= i <= hi <= line@.len(),
            out@ == line@.subrange(lo as int, i as int),
        decreases hi - i,
    {
        out.push(line[i]);
        i += 1;
        assert(out@ =~= line@.subrange(lo as int, i as int));
    }
    out
}

} // verus!
