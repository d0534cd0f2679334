//! Reading psql's output back: a table laid out by [`psql`](crate::input::psql)
//! parses into the cells it was laid out from, and what stands around the
//! table — lines above it, anything below its end — leaves it alone.

use vstd::prelude::*;

use crate::chars::spec_is_control;
use crate::input::{clean_lines, join, lemma_join_push, split_lines, strip_cr};
use crate::chars::spec_is_whitespace;
use crate::input::{
    ends_rows, is_body_end, is_first_rule, is_rows_end, lemma_body_end_unique,
    lemma_first_rule_unique, row_spec, table_spec, plus_positions, psql_line, psql_spec, psql_width, psql_widths, repeat};
use crate::lines::{
    cell_spec, is_row_count_spec, is_rule_spec, lines_up_spec, spans_spec, column_index_spec, lemma_column_index_unique, lemma_trim_back_take, lemma_trim_front_skip,
    sanitize_fold, sanitize_spec, trim_back, trim_front, trim_spec,
};
use crate::data::parse_spec;
use crate::width::{cap, char_columns, is_column_index, width_of};
use crate::scalars::nat_text;

verus! {

/// No line break in `s`.
pub open spec fn one_line(s: Seq<char>) -> bool {
    forall|i: int| 0 <= i < s.len() ==> #[trigger] s[i] != '\n'
}

proof fn lemma_split_one_line(s: Seq<char>)
    requires
        one_line(s),
    ensures
        split_lines(s) == seq![s],
    decreases s.len(),
{
    if s.len() > 0 {
        let p = s.drop_last();
        lemma_split_one_line(p);
        assert(s.last() == s[s.len() - 1]);
        assert(p.push(s.last()) =~= s);
        assert(seq![p].update(0, p.push(s.last())) =~= seq![s]);
    } else {
        assert(s =~= seq![]);
    }
}

/// A line break splits the text into the lines before it and after it.
proof fn lemma_split_append(x: Seq<char>, y: Seq<char>)
    ensures
        split_lines(x + seq!['\n'] + y) == split_lines(x) + split_lines(y),
    decreases y.len(),
{
    let xs = split_lines(x);
    if y.len() == 0 {
        assert(x + seq!['\n'] + y =~= x.push('\n'));
        assert((x + seq!['\n'] + y).drop_last() =~= x);
        assert(xs.push(seq![]) =~= xs + seq![seq![]]);
    } else {
        let y2 = y.drop_last();
        let c = y.last();
        lemma_split_append(x, y2);
        assert((x + seq!['\n'] + y).drop_last() =~= x + seq!['\n'] + y2);
        assert((x + seq!['\n'] + y).last() == c);
        let ys = split_lines(y2);
        crate::input::lemma_split_len(y2);
        if c == '\n' {
            assert((xs + ys).push(seq![]) =~= xs + ys.push(seq![]));
        } else {
            let all = xs + ys;
            assert(all.update(all.len() - 1, all.last().push(c)) =~= xs + ys.update(
                ys.len() - 1,
                ys.last().push(c),
            ));
        }
    }
}

/// Lines joined with line breaks split back into those lines.
proof fn lemma_split_join(ls: Seq<Seq<char>>)
    requires
        ls.len() >= 1,
        forall|k: int| 0 <= k < ls.len() ==> one_line(#[trigger] ls[k]),
    ensures
        split_lines(join(ls, seq!['\n'])) == ls,
    decreases ls.len(),
{
    if ls.len() == 1 {
        lemma_split_one_line(ls[0]);
        assert(seq![ls[0]] =~= ls);
    } else {
        let p = ls.drop_last();
        lemma_split_join(p);
        lemma_split_one_line(ls.last());
        lemma_split_append(join(p, seq!['\n']), ls.last());
        assert(p + seq![ls.last()] =~= ls);
    }
}

/// No control character in `s` (so no line break and no tab either).
pub open spec fn clean(s: Seq<char>) -> bool {
    forall|i: int| 0 <= i < s.len() ==> !spec_is_control(#[trigger] s[i])
}

proof fn lemma_clean_concat(a: Seq<char>, b: Seq<char>)
    requires
        clean(a),
        clean(b),
    ensures
        clean(a + b),
{
    assert forall|i: int| 0 <= i < (a + b).len() implies !spec_is_control(#[trigger] (a + b)[i]) by {
        if i < a.len() {
            assert((a + b)[i] == a[i]);
        } else {
            assert((a + b)[i] == b[i - a.len()]);
        }
    }
}

proof fn lemma_clean_one_line(s: Seq<char>)
    requires
        clean(s),
    ensures
        one_line(s),
{
    assert forall|i: int| 0 <= i < s.len() implies #[trigger] s[i] != '\n' by {
        assert(!spec_is_control(s[i]));
    }
}

proof fn lemma_clean_join(parts: Seq<Seq<char>>, sep: Seq<char>)
    requires
        clean(sep),
        forall|k: int| 0 <= k < parts.len() ==> clean(#[trigger] parts[k]),
    ensures
        clean(join(parts, sep)),
    decreases parts.len(),
{
    if parts.len() > 1 {
        let p = parts.drop_last();
        lemma_clean_join(p, sep);
        lemma_clean_concat(join(p, sep), sep);
        assert(clean(parts.last()));
        lemma_clean_concat(join(p, sep) + sep, parts.last());
    } else if parts.len() == 1 {
        assert(clean(parts[0]));
    }
}

proof fn lemma_nat_text_clean(n: nat)
    ensures
        clean(nat_text(n)),
    decreases n,
{
    if n >= 10 {
        lemma_nat_text_clean(n / 10);
        let d = (n % 10) as int;
        assert(!spec_is_control(crate::scalars::hex_digit(d)));
        lemma_clean_concat(nat_text(n / 10), seq![crate::scalars::hex_digit(d)]);
        assert(nat_text(n / 10).push(crate::scalars::hex_digit(d)) =~= nat_text(n / 10) + seq![
            crate::scalars::hex_digit(d),
        ]);
    } else {
        assert(!spec_is_control(crate::scalars::hex_digit(n as int)));
    }
}

/// Where part `k` starts in the parts joined by a one-character separator.
pub open spec fn part_start(parts: Seq<Seq<char>>, k: int) -> int
    decreases k,
{
    if k <= 0 {
        0
    } else {
        part_start(parts, k - 1) + parts[k - 1].len() + 1
    }
}

/// The joined text ends one separator short of where a next part would start.
proof fn lemma_join_len(parts: Seq<Seq<char>>, sep: char)
    requires
        parts.len() >= 1,
    ensures
        join(parts, seq![sep]).len() == part_start(parts, parts.len() as int) - 1,
    decreases parts.len(),
{
    if parts.len() > 1 {
        let p = parts.drop_last();
        lemma_join_len(p, sep);
        lemma_join_push(p, seq![sep], parts.last());
        assert(parts =~= p.push(parts.last()));
        lemma_part_start_prefix(parts, p.len() as int);
        assert(part_start(parts, parts.len() as int) == part_start(parts, p.len() as int)
            + parts.last().len() + 1);
    } else {
        assert(part_start(parts, 0) == 0);
        assert(part_start(parts, 1) == parts[0].len() + 1);
    }
}

/// In the joined text, part `k` sits at its start.
proof fn lemma_join_part(parts: Seq<Seq<char>>, sep: char, k: int)
    requires
        0 <= k < parts.len(),
    ensures
        join(parts, seq![sep]).subrange(part_start(parts, k), part_start(parts, k) + parts[k].len())
            == parts[k],
    decreases parts.len(),
{
    let j = join(parts, seq![sep]);
    if parts.len() == 1 {
        assert(j.subrange(0, parts[0].len() as int) =~= parts[0]);
    } else {
        let p = parts.drop_last();
        let x = parts.last();
        assert(parts =~= p.push(x));
        lemma_join_push(p, seq![sep], x);
        let jp = join(p, seq![sep]);
        assert(j == jp + seq![sep] + x);
        if k < p.len() {
            lemma_join_part(p, sep, k);
            lemma_join_len(p, sep);
            lemma_part_start_prefix(parts, k);
            lemma_part_start_prefix(parts, p.len() - 1);
            lemma_part_start_mono(p, k + 1, p.len() as int);
            lemma_part_start_mono(p, 0, k);
            lemma_part_start_prefix(parts, p.len() as int);
            assert(part_start(p, k + 1) == part_start(p, k) + p[k].len() + 1);
            assert(part_start(p, k) + p[k].len() <= jp.len());
            assert(j.subrange(part_start(parts, k), part_start(parts, k) + parts[k].len())
                =~= jp.subrange(part_start(p, k), part_start(p, k) + p[k].len()));
        } else {
            lemma_join_len(p, sep);
            lemma_part_start_prefix(parts, k - 1);
            assert(part_start(parts, k) == jp.len() + 1);
            assert(j.subrange(part_start(parts, k), part_start(parts, k) + parts[k].len()) =~= x);
        }
    }
}

/// In the joined text, the separator sits just before each part but the
/// first.
proof fn lemma_join_sep(parts: Seq<Seq<char>>, sep: char, k: int)
    requires
        0 < k < parts.len(),
    ensures
        join(parts, seq![sep])[part_start(parts, k) - 1] == sep,
    decreases parts.len(),
{
    let j = join(parts, seq![sep]);
    let p = parts.drop_last();
    let x = parts.last();
    assert(parts =~= p.push(x));
    lemma_join_push(p, seq![sep], x);
    let jp = join(p, seq![sep]);
    assert(j == jp + seq![sep] + x);
    lemma_join_len(p, sep);
    lemma_part_start_prefix(parts, k);
    if k < p.len() {
        lemma_join_sep(p, sep, k);
        lemma_part_start_mono(p, k, p.len() as int);
        lemma_part_start_mono(p, 0, k);
        lemma_part_start_prefix(parts, p.len() as int);
        assert(1 <= part_start(p, k) <= jp.len());
        assert(j[part_start(parts, k) - 1] == jp[part_start(p, k) - 1]);
    } else {
        lemma_part_start_prefix(parts, k - 1);
        assert(part_start(parts, k) - 1 == jp.len());
    }
}

proof fn lemma_part_start_mono(parts: Seq<Seq<char>>, a: int, b: int)
    requires
        0 <= a <= b <= parts.len(),
    ensures
        part_start(parts, a) + (b - a) <= part_start(parts, b),
    decreases b - a,
{
    if a < b {
        lemma_part_start_mono(parts, a, b - 1);
    }
}

proof fn lemma_part_start_prefix(parts: Seq<Seq<char>>, k: int)
    requires
        parts.len() >= 1,
        0 <= k < parts.len(),
    ensures
        part_start(parts.drop_last(), k) == part_start(parts, k),
    decreases k,
{
    if k > 0 {
        lemma_part_start_prefix(parts, k - 1);
    }
}

proof fn lemma_clean_line(s: Seq<char>)
    requires
        clean(s),
    ensures
        sanitize_spec(strip_cr(s)) == s,
{
    if s.len() > 0 {
        assert(!spec_is_control(s[s.len() - 1]));
    }
    crate::lines::law_sanitize_settles(s);
}

/// Joining is associative over a split of the parts.
proof fn lemma_join_concat(a: Seq<Seq<char>>, b: Seq<Seq<char>>, sep: Seq<char>)
    requires
        a.len() >= 1,
        b.len() >= 1,
    ensures
        join(a + b, sep) == join(a, sep) + sep + join(b, sep),
    decreases b.len(),
{
    if b.len() == 1 {
        assert(a + b =~= a.push(b[0]));
        lemma_join_push(a, sep, b[0]);
    } else {
        let b2 = b.drop_last();
        let x = b.last();
        lemma_join_concat(a, b2, sep);
        assert(a + b =~= (a + b2).push(x));
        assert(b =~= b2.push(x));
        lemma_join_push(a + b2, sep, x);
        lemma_join_push(b2, sep, x);
    }
}

/// Clean lines joined with line breaks come back as those lines.
proof fn lemma_clean_lines(ls: Seq<Seq<char>>)
    requires
        ls.len() >= 1,
        forall|k: int| 0 <= k < ls.len() ==> clean(#[trigger] ls[k]),
    ensures
        clean_lines(join(ls, seq!['\n'])) == ls,
{
    assert forall|k: int| 0 <= k < ls.len() implies one_line(#[trigger] ls[k]) by {
        lemma_clean_one_line(ls[k]);
    }
    lemma_split_join(ls);
    let f = |l: Seq<char>| sanitize_spec(strip_cr(l));
    assert forall|k: int| 0 <= k < ls.len() implies f(ls[k]) == #[trigger] ls[k] by {
        lemma_clean_line(ls[k]);
    }
    assert(ls.map_values(f) =~= ls);
}

/// Every character of `s` one column wide.
pub open spec fn narrow(s: Seq<char>) -> bool {
    forall|i: int| 0 <= i < s.len() ==> char_columns(#[trigger] s[i]) == 1
}

proof fn lemma_narrow_width_of(s: Seq<char>)
    requires
        narrow(s),
    ensures
        width_of(s) == s.len(),
{
    assert forall|i: int| 0 <= i < s.len() implies char_columns(#[trigger] s[i]) == 1 by {}
    crate::width::lemma_width_one_each(s);
}

/// In narrow text a display column is a character index.
proof fn lemma_column_index_narrow(s: Seq<char>, col: int)
    requires
        narrow(s),
        0 <= col <= s.len() <= usize::MAX,
    ensures
        column_index_spec(s, col) == col,
{
    assert forall|j: int| 0 <= j <= s.len() implies width_of(#[trigger] s.take(j)) == j by {
        assert(narrow(s.take(j))) by {
            assert forall|i: int| 0 <= i < s.take(j).len() implies char_columns(
                #[trigger] s.take(j)[i],
            ) == 1 by {
                assert(s.take(j)[i] == s[i]);
            }
        }
        lemma_narrow_width_of(s.take(j));
    }
    assert(is_column_index(s, col, col)) by {
        if col < s.len() {
            assert(width_of(s.take(col)) == col);
        }
        assert forall|j: int| 0 <= j < col implies cap(width_of(#[trigger] s.take(j)) as int) < col by {
            assert(width_of(s.take(j)) == j);
        }
    }
    let r = column_index_spec(s, col);
    assert(is_column_index(s, col, r));
    lemma_column_index_unique(s, col, r, col, col);
    lemma_column_index_unique(s, col, col, col, r);
}

/// A field's text with no space at either end, padded with spaces, trims
/// back to itself.
proof fn lemma_trim_padded(c: Seq<char>, m: int)
    requires
        m >= 0,
        c.len() == 0 || (!spec_is_whitespace(c[0]) && !spec_is_whitespace(c.last())),
    ensures
        trim_spec(c + repeat(' ', m)) == c,
{
    let t = c + repeat(' ', m);
    assert forall|j: int| c.len() <= j < t.len() implies spec_is_whitespace(#[trigger] t[j]) by {
        assert(t[j] == ' ');
    }
    if c.len() == 0 {
        lemma_trim_front_skip(t, t.len() as int);
        assert(t.skip(t.len() as int) =~= Seq::<char>::empty());
        assert(trim_front(t) == Seq::<char>::empty());
        assert(trim_back(Seq::<char>::empty()) == Seq::<char>::empty());
    } else {
        assert(t[0] == c[0]);
        assert(trim_front(t) == t);
        lemma_trim_back_take(t, c.len() as int);
        assert(t.take(c.len() as int) =~= c);
        assert(c.last() == c[c.len() - 1]);
        assert(trim_back(c) == c);
    }
}

/// Text without a `+` adds no separators.
proof fn lemma_plus_none(s: Seq<char>, t: Seq<char>)
    requires
        forall|i: int| 0 <= i < t.len() ==> #[trigger] t[i] != '+',
    ensures
        plus_positions(s + t) == plus_positions(s),
    decreases t.len(),
{
    if t.len() > 0 {
        let t2 = t.drop_last();
        assert((s + t).drop_last() =~= s + t2);
        assert((s + t).last() == t[t.len() - 1]);
        lemma_plus_none(s, t2);
    } else {
        assert(s + t =~= s);
    }
}

/// Only dashes.
pub open spec fn dashes(s: Seq<char>) -> bool {
    forall|i: int| 0 <= i < s.len() ==> #[trigger] s[i] == '-'
}

/// Dashes joined by `+`: the `+` sit just before each part but the first.
proof fn lemma_rule_plus(parts: Seq<Seq<char>>)
    requires
        parts.len() >= 1,
        forall|k: int| 0 <= k < parts.len() ==> dashes(#[trigger] parts[k]),
        part_start(parts, parts.len() as int) <= usize::MAX,
    ensures
        plus_positions(join(parts, seq!['+'])).len() == parts.len() - 1,
        forall|k: int|
            0 <= k < parts.len() - 1 ==> #[trigger] plus_positions(join(parts, seq!['+']))[k] as int
                == part_start(parts, k + 1) - 1,
    decreases parts.len(),
{
    if parts.len() == 1 {
        assert(join(parts, seq!['+']) == parts[0]);
        assert(dashes(parts[0]));
        lemma_plus_none(seq![], parts[0]);
        assert(Seq::<char>::empty() + parts[0] =~= parts[0]);
    } else {
        let p = parts.drop_last();
        let x = parts.last();
        assert(parts =~= p.push(x));
        assert forall|k: int| 0 <= k < p.len() implies dashes(#[trigger] p[k]) by {
            assert(p[k] == parts[k]);
        }
        lemma_part_start_prefix(parts, p.len() as int);
        lemma_part_start_mono(p, p.len() - 1, p.len() as int);
        lemma_rule_plus(p);
        lemma_join_push(p, seq!['+'], x);
        let jp = join(p, seq!['+']);
        lemma_join_len(p, '+');
        assert(dashes(parts[parts.len() - 1]));
        lemma_plus_none(jp + seq!['+'], x);
        assert(jp + seq!['+'] + x == (jp + seq!['+']) + x);
        assert((jp + seq!['+']).drop_last() =~= jp);
        assert(plus_positions(jp + seq!['+']) == plus_positions(jp).push(jp.len() as usize));
        let pp = plus_positions(join(parts, seq!['+']));
        assert forall|k: int| 0 <= k < parts.len() - 1 implies #[trigger] pp[k] as int == part_start(
            parts,
            k + 1,
        ) - 1 by {
            lemma_part_start_prefix(parts, k + 1);
            if k < p.len() - 1 {
                assert(pp[k] == plus_positions(jp)[k]);
            } else {
                assert(pp[k] == jp.len() as usize);
            }
        }
    }
}

/// Where parts start depends only on their lengths.
proof fn lemma_part_start_same(a: Seq<Seq<char>>, b: Seq<Seq<char>>, k: int)
    requires
        0 <= k <= a.len(),
        k <= b.len(),
        forall|i: int| 0 <= i < k ==> #[trigger] a[i].len() == b[i].len(),
    ensures
        part_start(a, k) == part_start(b, k),
    decreases k,
{
    if k > 0 {
        lemma_part_start_same(a, b, k - 1);
    }
}

/// What holds of every character of the parts and of the separator holds of
/// every character of the joined text.
proof fn lemma_join_all(parts: Seq<Seq<char>>, sep: Seq<char>, p: spec_fn(char) -> bool)
    requires
        forall|k: int, i: int| 0 <= k < parts.len() && 0 <= i < parts[k].len() ==> p(#[trigger] parts[k][i]),
        forall|i: int| 0 <= i < sep.len() ==> p(#[trigger] sep[i]),
    ensures
        forall|i: int| 0 <= i < join(parts, sep).len() ==> p(#[trigger] join(parts, sep)[i]),
    decreases parts.len(),
{
    let j = join(parts, sep);
    if parts.len() == 1 {
        assert forall|i: int| 0 <= i < j.len() implies p(#[trigger] j[i]) by {
            assert(j[i] == parts[0][i]);
        }
    } else if parts.len() > 1 {
        let q = parts.drop_last();
        let x = parts.last();
        assert forall|k: int, i: int| 0 <= k < q.len() && 0 <= i < q[k].len() implies p(
            #[trigger] q[k][i],
        ) by {
            assert(q[k] == parts[k]);
        }
        lemma_join_all(q, sep, p);
        let jq = join(q, sep);
        assert(j == jq + sep + x);
        assert forall|i: int| 0 <= i < j.len() implies p(#[trigger] j[i]) by {
            if i < jq.len() {
                assert(j[i] == jq[i]);
            } else if i < jq.len() + sep.len() {
                assert(j[i] == sep[i - jq.len()]);
            } else {
                assert(j[i] == x[i - jq.len() - sep.len()]);
                assert(x == parts[parts.len() - 1]);
            }
        }
    }
}

/// The pieces of one laid-out line: each cell padded to its column's
/// width, with a space either side.
pub open spec fn line_segs(cells: Seq<Seq<char>>, widths: Seq<int>) -> Seq<Seq<char>> {
    Seq::new(
        widths.len(),
        |i: int|
            seq![' '] + cells[i] + repeat(
                ' ',
                if widths[i] > cells[i].len() {
                    widths[i] - cells[i].len()
                } else {
                    0
                },
            ) + seq![' '],
    )
}

/// The pieces of the rule: a run of dashes over each column and its padding.
pub open spec fn rule_parts(widths: Seq<int>) -> Seq<Seq<char>> {
    Seq::new(widths.len(), |i: int| repeat('-', cap(widths[i] + 2)))
}

/// Cells that fit their columns lay out in pieces as long as the rule's.
proof fn lemma_line_is_join(cells: Seq<Seq<char>>, widths: Seq<int>)
    ensures
        psql_line(cells, widths) == join(line_segs(cells, widths), seq!['|']),
{
    assert(line_segs(cells, widths) =~= Seq::new(
        widths.len(),
        |i: int|
            seq![' '] + cells[i] + repeat(
                ' ',
                if widths[i] > cells[i].len() {
                    widths[i] - cells[i].len()
                } else {
                    0
                },
            ) + seq![' '],
    ));
}

/// A laid-out line is at least as long as each column and its padding.
proof fn lemma_line_long(cells: Seq<Seq<char>>, widths: Seq<int>, i: int)
    requires
        cells.len() >= widths.len(),
        0 <= i < widths.len(),
    ensures
        psql_line(cells, widths).len() >= widths[i] + 2,
{
    let segs = line_segs(cells, widths);
    let n = widths.len() as int;
    lemma_line_is_join(cells, widths);
    lemma_join_len(segs, '|');
    lemma_part_start_mono(segs, i + 1, n);
    lemma_part_start_mono(segs, 0, i);
    assert(part_start(segs, i + 1) == part_start(segs, i) + segs[i].len() + 1);
}

proof fn lemma_line_segs(cells: Seq<Seq<char>>, widths: Seq<int>, k: int)
    requires
        cells.len() >= widths.len(),
        forall|i: int| 0 <= i < widths.len() ==> #[trigger] cells[i].len() <= widths[i] <= usize::MAX - 2,
        0 <= k <= widths.len(),
    ensures
        psql_line(cells, widths) == join(line_segs(cells, widths), seq!['|']),
        part_start(line_segs(cells, widths), k) == part_start(rule_parts(widths), k),
        forall|i: int|
            0 <= i < widths.len() ==> (#[trigger] line_segs(cells, widths)[i]).len() == widths[i] + 2,
{
    assert(line_segs(cells, widths) =~= Seq::new(
        widths.len(),
        |i: int|
            seq![' '] + cells[i] + repeat(
                ' ',
                if widths[i] > cells[i].len() {
                    widths[i] - cells[i].len()
                } else {
                    0
                },
            ) + seq![' '],
    ));
    lemma_part_start_same(line_segs(cells, widths), rule_parts(widths), k);
}

/// Where a cell sits in its laid-out line, and the `|` before it.
proof fn lemma_line_cell(cells: Seq<Seq<char>>, widths: Seq<int>, i: int)
    requires
        cells.len() >= widths.len(),
        forall|j: int| 0 <= j < widths.len() ==> #[trigger] cells[j].len() <= widths[j] <= usize::MAX - 2,
        0 <= i < widths.len(),
    ensures
        ({
            let line = psql_line(cells, widths);
            let rp = rule_parts(widths);
            &&& line.len() == part_start(rp, widths.len() as int) - 1
            &&& line.subrange(part_start(rp, i) + 1, part_start(rp, i) + 1 + widths[i]) == cells[i]
                + repeat(' ', widths[i] - cells[i].len())
            &&& line[part_start(rp, i)] == ' '
            &&& i > 0 ==> line[part_start(rp, i) - 1] == '|'
        }),
{
    let segs = line_segs(cells, widths);
    let line = psql_line(cells, widths);
    let rp = rule_parts(widths);
    let n = widths.len() as int;
    lemma_line_segs(cells, widths, i);
    lemma_line_segs(cells, widths, n);
    lemma_join_len(segs, '|');
    lemma_join_part(segs, '|', i);
    let a = part_start(rp, i);
    let seg = segs[i];
    assert(seg == seq![' '] + cells[i] + repeat(' ', widths[i] - cells[i].len()) + seq![' ']);
    assert(line.subrange(a, a + seg.len()) == seg);
    assert(rp[i].len() == widths[i] + 2);
    assert(part_start(rp, i + 1) == a + rp[i].len() + 1);
    lemma_part_start_mono(rp, i + 1, n);
    lemma_part_start_mono(rp, 0, i);
    assert(0 <= a && a + seg.len() <= line.len());
    assert(line.subrange(a + 1, a + 1 + widths[i]) =~= seg.subrange(1, 1 + widths[i]));
    assert(seg.subrange(1, 1 + widths[i]) =~= cells[i] + repeat(' ', widths[i] - cells[i].len()));
    assert(line[a] == line.subrange(a, a + seg.len())[0]);
    if i > 0 {
        lemma_join_sep(segs, '|', i);
    }
}

proof fn lemma_psql_width(rows: Seq<Seq<Seq<char>>>, i: int, k: int)
    ensures
        psql_width(rows, i, k) >= 0,
        forall|j: int| 0 <= j < k ==> cap(width_of(#[trigger] rows[j][i]) as int) <= psql_width(rows, i, k),
    decreases k,
{
    if k > 0 {
        lemma_psql_width(rows, i, k - 1);
    }
}

/// What a table must be for psql's layout of it to read back: at least one
/// column, every row as long as the names, and every cell free of control
/// characters and of spaces at either end. (A row that reads as psql's
/// `(n rows)` footer ends the table early, so none may.)
pub open spec fn readable_table(rows: Seq<Seq<Seq<char>>>) -> bool {
    &&& rows.len() >= 1
    &&& rows[0].len() >= 1
    &&& forall|r: int| 0 <= r < rows.len() ==> #[trigger] rows[r].len() >= rows[0].len()
    &&& forall|r: int, i: int|
        0 <= r < rows.len() && 0 <= i < rows[0].len() ==> {
            let c = #[trigger] rows[r][i];
            &&& clean(c)
            &&& c.len() == 0 || (!spec_is_whitespace(c[0]) && !spec_is_whitespace(c.last()))
        }
    &&& forall|r: int|
        1 <= r < rows.len() ==> !crate::lines::is_row_count_spec(
            #[trigger] psql_line(rows[r], psql_widths(rows)),
        )
}

/// Every cell one column wide per character, as are the space and the `|`
/// psql pads and separates them with.
pub open spec fn narrow_table(rows: Seq<Seq<Seq<char>>>) -> bool {
    &&& char_columns(' ') == 1
    &&& char_columns('|') == 1
    &&& forall|r: int, i: int|
        0 <= r < rows.len() && 0 <= i < rows[0].len() ==> narrow(#[trigger] rows[r][i])
}

/// The rows under the rule, laid out.
pub open spec fn body_lines(rows: Seq<Seq<Seq<char>>>) -> Seq<Seq<char>> {
    Seq::new((rows.len() - 1) as nat, |r: int| psql_line(rows[r + 1], psql_widths(rows)))
}

/// psql's `(n rows)` footer.
pub open spec fn footer(m: nat) -> Seq<char> {
    seq!['('] + nat_text(m) + seq![' ', 'r', 'o', 'w', 's', ')']
}

/// The lines of psql's layout of `rows`: names, rule, rows (or a blank line
/// when there are none), footer and two blank lines.
pub open spec fn all_lines(rows: Seq<Seq<Seq<char>>>) -> Seq<Seq<char>> {
    let widths = psql_widths(rows);
    seq![psql_line(rows[0], widths), join(rule_parts(widths), seq!['+'])] + (if rows.len() > 1 {
        body_lines(rows)
    } else {
        seq![seq![]]
    }) + seq![footer((rows.len() - 1) as nat), seq![], seq![]]
}

/// psql's layout is its lines joined by line breaks.
proof fn lemma_psql_joined(rows: Seq<Seq<Seq<char>>>)
    requires
        rows.len() >= 1,
    ensures
        psql_spec(rows) == join(all_lines(rows), seq!['\n']),
{
    let widths = psql_widths(rows);
    let nl = seq!['\n'];
    let l0 = psql_line(rows[0], widths);
    let l1 = join(rule_parts(widths), seq!['+']);
    let m = (rows.len() - 1) as nat;
    let body = body_lines(rows);
    let bodyp = if rows.len() > 1 {
        body
    } else {
        seq![seq![]]
    };
    let tail = seq![footer(m), seq![], seq![]];
    let head = seq![l0, l1];
    assert(join(head, nl) == l0 + nl + l1) by {
        assert(head =~= seq![l0].push(l1));
        lemma_join_push(seq![l0], nl, l1);
        assert(join(seq![l0], nl) == l0);
    }
    assert(join(tail, nl) == footer(m) + nl + seq![] + nl + seq![]) by {
        let f = footer(m);
        let e = Seq::<char>::empty();
        assert(tail =~= seq![f].push(e).push(e));
        lemma_join_push(seq![f], nl, e);
        lemma_join_push(seq![f].push(e), nl, e);
        assert(join(seq![f], nl) == f);
    }
    assert(join(bodyp, nl) == join(body, nl)) by {
        if rows.len() <= 1 {
            assert(body =~= Seq::<Seq<char>>::empty());
        }
    }
    assert(body =~= Seq::new(
        (rows.len() - 1) as nat,
        |r: int| psql_line(rows[r + 1], widths),
    ));
    lemma_join_concat(bodyp, tail, nl);
    lemma_join_concat(head, bodyp + tail, nl);
    assert(all_lines(rows) =~= head + (bodyp + tail));
    assert(rule_parts(widths) =~= Seq::new(widths.len(), |i: int| repeat('-', cap(widths[i] + 2))));
    assert(psql_spec(rows) =~= join(all_lines(rows), nl));
}

/// In a table whose layout fits in memory, every cell fits its column and
/// every column fits with its padding.
proof fn lemma_widths_fit(rows: Seq<Seq<Seq<char>>>)
    requires
        readable_table(rows),
        narrow_table(rows),
        psql_spec(rows).len() <= usize::MAX,
    ensures
        psql_widths(rows).len() == rows[0].len(),
        forall|i: int|
            0 <= i < rows[0].len() ==> #[trigger] psql_widths(rows)[i] <= usize::MAX - 2,
        forall|r: int, i: int|
            0 <= r < rows.len() && 0 <= i < rows[0].len() ==> (#[trigger] rows[r][i]).len()
                <= psql_widths(rows)[i],
{
    let widths = psql_widths(rows);
    let l0 = psql_line(rows[0], widths);
    assert(psql_spec(rows).len() >= l0.len());
    assert forall|i: int| 0 <= i < rows[0].len() implies #[trigger] widths[i] <= usize::MAX - 2 by {
        lemma_line_long(rows[0], widths, i);
    }
    assert forall|r: int, i: int|
        0 <= r < rows.len() && 0 <= i < rows[0].len() implies (#[trigger] rows[r][i]).len()
        <= widths[i] by {
        lemma_psql_width(rows, i, rows.len() as int);
        lemma_narrow_width_of(rows[r][i]);
        assert(widths[i] <= usize::MAX - 2);
    }
}

proof fn lemma_narrow_concat(a: Seq<char>, b: Seq<char>)
    requires
        narrow(a),
        narrow(b),
    ensures
        narrow(a + b),
{
    assert forall|i: int| 0 <= i < (a + b).len() implies char_columns(#[trigger] (a + b)[i]) == 1 by {
        if i < a.len() {
            assert((a + b)[i] == a[i]);
        } else {
            assert((a + b)[i] == b[i - a.len()]);
        }
    }
}

/// A laid-out line holds nothing but its cells, spaces and `|`.
proof fn lemma_line_clean(cells: Seq<Seq<char>>, widths: Seq<int>)
    requires
        cells.len() >= widths.len(),
        forall|i: int| 0 <= i < widths.len() ==> clean(#[trigger] cells[i]),
    ensures
        clean(psql_line(cells, widths)),
        char_columns(' ') == 1 && char_columns('|') == 1 && (forall|i: int|
            0 <= i < widths.len() ==> narrow(#[trigger] cells[i])) ==> narrow(
            psql_line(cells, widths),
        ),
{
    let segs = line_segs(cells, widths);
    lemma_line_is_join(cells, widths);
    let sp = seq![' '];
    assert(clean(sp)) by {
        assert forall|i: int| 0 <= i < sp.len() implies !spec_is_control(#[trigger] sp[i]) by {
            assert(sp[i] == ' ');
        }
    }
    assert forall|k: int| 0 <= k < segs.len() implies clean(#[trigger] segs[k]) by {
        let pad = repeat(
            ' ',
            if widths[k] > cells[k].len() {
                widths[k] - cells[k].len()
            } else {
                0
            },
        );
        assert(clean(pad)) by {
            assert forall|i: int| 0 <= i < pad.len() implies !spec_is_control(#[trigger] pad[i]) by {
                assert(pad[i] == ' ');
            }
        }
        lemma_clean_concat(sp, cells[k]);
        lemma_clean_concat(sp + cells[k], pad);
        lemma_clean_concat(sp + cells[k] + pad, sp);
    }
    let not_control = |c: char| !spec_is_control(c);
    assert forall|k: int, i: int| 0 <= k < segs.len() && 0 <= i < segs[k].len() implies not_control(
        #[trigger] segs[k][i],
    ) by {
        assert(clean(segs[k]));
    }
    assert forall|i: int| 0 <= i < seq!['|'].len() implies not_control(#[trigger] seq!['|'][i]) by {}
    lemma_join_all(segs, seq!['|'], not_control);
    if char_columns(' ') == 1 && char_columns('|') == 1 && (forall|i: int|
        0 <= i < widths.len() ==> narrow(#[trigger] cells[i])) {
        assert(narrow(sp)) by {
            assert forall|i: int| 0 <= i < sp.len() implies char_columns(#[trigger] sp[i]) == 1 by {
                assert(sp[i] == ' ');
            }
        }
        assert forall|k: int| 0 <= k < segs.len() implies narrow(#[trigger] segs[k]) by {
            let pad = repeat(
                ' ',
                if widths[k] > cells[k].len() {
                    widths[k] - cells[k].len()
                } else {
                    0
                },
            );
            assert(narrow(pad)) by {
                assert forall|i: int| 0 <= i < pad.len() implies char_columns(#[trigger] pad[i])
                    == 1 by {
                    assert(pad[i] == ' ');
                }
            }
            lemma_narrow_concat(sp, cells[k]);
            lemma_narrow_concat(sp + cells[k], pad);
            lemma_narrow_concat(sp + cells[k] + pad, sp);
        }
        let one_col = |c: char| char_columns(c) == 1;
        assert forall|k: int, i: int| 0 <= k < segs.len() && 0 <= i < segs[k].len() implies one_col(
            #[trigger] segs[k][i],
        ) by {
            assert(narrow(segs[k]));
        }
        assert forall|i: int| 0 <= i < seq!['|'].len() implies one_col(#[trigger] seq!['|'][i]) by {}
        lemma_join_all(segs, seq!['|'], one_col);
    }
}

/// The rule: dashes over each column, `+` between them.
proof fn lemma_rule_line(widths: Seq<int>)
    requires
        widths.len() >= 1,
        forall|i: int| 0 <= i < widths.len() ==> 0 <= #[trigger] widths[i] <= usize::MAX - 2,
        part_start(rule_parts(widths), widths.len() as int) <= usize::MAX,
    ensures
        ({
            let rule = join(rule_parts(widths), seq!['+']);
            let rp = rule_parts(widths);
            &&& clean(rule)
            &&& is_rule_spec(rule)
            &&& rule.len() == part_start(rp, widths.len() as int) - 1
            &&& plus_positions(rule).len() == widths.len() - 1
            &&& forall|k: int|
                0 <= k < widths.len() - 1 ==> #[trigger] plus_positions(rule)[k] as int
                    == part_start(rp, k + 1) - 1
        }),
{
    let rp = rule_parts(widths);
    let rule = join(rp, seq!['+']);
    assert forall|k: int| 0 <= k < rp.len() implies dashes(#[trigger] rp[k]) by {}
    lemma_rule_plus(rp);
    lemma_join_len(rp, '+');
    let p = |c: char| c == '-' || c == '+';
    assert forall|k: int, i: int| 0 <= k < rp.len() && 0 <= i < rp[k].len() implies p(
        #[trigger] rp[k][i],
    ) by {}
    assert forall|i: int| 0 <= i < seq!['+'].len() implies p(#[trigger] seq!['+'][i]) by {}
    lemma_join_all(rp, seq!['+'], p);
    lemma_join_part(rp, '+', 0);
    lemma_part_start_mono(rp, 1, widths.len() as int);
    assert(part_start(rp, 1) == rp[0].len() + 1);
    assert(rp[0].len() >= 2);
    assert(rp[0][0] == '-');
    assert(rule.subrange(0, rp[0].len() as int)[0] == rule[0]);
    assert(rule[0] == '-');
    assert forall|i: int| 0 <= i < rule.len() implies !spec_is_control(#[trigger] rule[i]) by {
        assert(p(rule[i]));
    }
    lemma_part_start_mono(rp, 1, widths.len() as int);
}

/// The footer is clean, trims to itself and reads as a row count.
proof fn lemma_footer(m: nat)
    ensures
        clean(footer(m)),
        is_row_count_spec(footer(m)),
{
    let f = footer(m);
    let tail = seq![' ', 'r', 'o', 'w', 's', ')'];
    lemma_nat_text_clean(m);
    assert(clean(seq!['('])) by {
        assert forall|i: int| 0 <= i < 1 implies !spec_is_control(#[trigger] seq!['('][i]) by {}
    }
    assert(clean(tail)) by {
        assert forall|i: int| 0 <= i < tail.len() implies !spec_is_control(#[trigger] tail[i]) by {}
    }
    lemma_clean_concat(seq!['('], nat_text(m));
    lemma_clean_concat(seq!['('] + nat_text(m), tail);
    assert(f[0] == '(');
    assert(f.last() == ')');
    lemma_trim_padded(f, 0);
    assert(f + repeat(' ', 0) =~= f);
    assert(f.skip(f.len() - 6) =~= tail);
}

/// The fields the rule marks out: each column's cells, without the space
/// either side.
proof fn lemma_rule_spans(widths: Seq<int>)
    requires
        widths.len() >= 1,
        forall|i: int| 0 <= i < widths.len() ==> 0 <= #[trigger] widths[i] <= usize::MAX - 2,
        part_start(rule_parts(widths), widths.len() as int) <= usize::MAX,
    ensures
        ({
            let rule = join(rule_parts(widths), seq!['+']);
            let rp = rule_parts(widths);
            let spans = spans_spec(rule.len() as int, plus_positions(rule));
            &&& spans.len() == widths.len()
            &&& forall|i: int|
                0 <= i < widths.len() ==> #[trigger] spans[i] == (
                    part_start(rp, i) + 1,
                    part_start(rp, i) + 1 + widths[i],
                )
        }),
{
    let rp = rule_parts(widths);
    let rule = join(rp, seq!['+']);
    let seps = plus_positions(rule);
    let n = widths.len() as int;
    lemma_rule_line(widths);
    let spans = spans_spec(rule.len() as int, seps);
    assert forall|i: int| 0 <= i < n implies #[trigger] spans[i] == (
        part_start(rp, i) + 1,
        part_start(rp, i) + 1 + widths[i],
    ) by {
        assert(part_start(rp, i + 1) == part_start(rp, i) + rp[i].len() + 1);
        assert(rp[i].len() == widths[i] + 2);
        if i > 0 {
            assert(seps[i - 1] as int == part_start(rp, i) - 1);
        }
        if i < n - 1 {
            assert(seps[i] as int == part_start(rp, i + 1) - 1);
        } else {
            assert(rule.len() == part_start(rp, i + 1) - 1);
        }
    }
}

/// A cell of a laid-out line reads back as itself.
proof fn lemma_cell_reads_back(cells: Seq<Seq<char>>, widths: Seq<int>, i: int)
    requires
        cells.len() >= widths.len(),
        forall|j: int| 0 <= j < widths.len() ==> #[trigger] cells[j].len() <= widths[j] <= usize::MAX - 2,
        0 <= i < widths.len(),
        narrow(psql_line(cells, widths)),
        psql_line(cells, widths).len() <= usize::MAX,
        cells[i].len() == 0 || (!spec_is_whitespace(cells[i][0]) && !spec_is_whitespace(
            cells[i].last(),
        )),
    ensures
        cell_spec(
            psql_line(cells, widths),
            (
                part_start(rule_parts(widths), i) + 1,
                part_start(rule_parts(widths), i) + 1 + widths[i],
            ),
        ) == cells[i],
{
    let line = psql_line(cells, widths);
    let rp = rule_parts(widths);
    let a = part_start(rp, i) + 1;
    let b = a + widths[i];
    lemma_line_cell(cells, widths, i);
    lemma_line_segs(cells, widths, i);
    let n = widths.len() as int;
    lemma_part_start_mono(rp, i + 1, n);
    lemma_part_start_mono(rp, 0, i);
    assert(part_start(rp, i + 1) == part_start(rp, i) + rp[i].len() + 1);
    assert(rp[i].len() == widths[i] + 2);
    assert(0 <= a <= b <= line.len());
    lemma_column_index_narrow(line, a);
    lemma_column_index_narrow(line, b);
    lemma_trim_padded(cells[i], widths[i] - cells[i].len());
}

/// Above each `+` of the rule the names line has its `|`.
proof fn lemma_header_lines_up(cells: Seq<Seq<char>>, widths: Seq<int>)
    requires
        widths.len() >= 1,
        cells.len() >= widths.len(),
        forall|j: int| 0 <= j < widths.len() ==> #[trigger] cells[j].len() <= widths[j] <= usize::MAX - 2,
        narrow(psql_line(cells, widths)),
        psql_line(cells, widths).len() < usize::MAX,
    ensures
        lines_up_spec(psql_line(cells, widths), plus_positions(join(rule_parts(widths), seq!['+']))),
{
    let line = psql_line(cells, widths);
    let rp = rule_parts(widths);
    let seps = plus_positions(join(rp, seq!['+']));
    let n = widths.len() as int;
    lemma_line_cell(cells, widths, 0);
    lemma_line_segs(cells, widths, n);
    assert(part_start(rp, n) <= usize::MAX) by {
        assert(line.len() == part_start(rp, n) - 1);
    }
    assert forall|i: int| 0 <= i < widths.len() implies 0 <= #[trigger] widths[i] <= usize::MAX - 2 by {
        assert(cells[i].len() <= widths[i]);
    }
    lemma_rule_line(widths);
    assert forall|k: int| 0 <= k < seps.len() implies {
        let i = column_index_spec(line, #[trigger] seps[k] as int);
        i < line.len() && line[i] == '|'
    } by {
        lemma_line_cell(cells, widths, k + 1);
        lemma_part_start_mono(rp, k + 2, n);
        assert(part_start(rp, k + 2) == part_start(rp, k + 1) + rp[k + 1].len() + 1);
        assert(seps[k] as int == part_start(rp, k + 1) - 1);
        lemma_column_index_narrow(line, seps[k] as int);
    }
}

/// No part is longer than the parts joined.
proof fn lemma_join_part_len(parts: Seq<Seq<char>>, sep: char, k: int)
    requires
        0 <= k < parts.len(),
    ensures
        parts[k].len() <= join(parts, seq![sep]).len(),
{
    lemma_join_len(parts, sep);
    lemma_part_start_mono(parts, k + 1, parts.len() as int);
    lemma_part_start_mono(parts, 0, k);
    assert(part_start(parts, k + 1) == part_start(parts, k) + parts[k].len() + 1);
}

/// The table psql's layout of `rows` is.
pub open spec fn text_of_table(rows: Seq<Seq<Seq<char>>>) -> Seq<char> {
    psql_spec(rows)
}

/// `text` holds the table `rows`: the first row as the names, and under
/// them each further row's cells, parsed.
pub open spec fn reads_back_as(text: Seq<char>, rows: Seq<Seq<Seq<char>>>) -> bool {
    table_spec(text) matches Some(d) && {
        let n = rows[0].len() as int;
        &&& d.columns.len() == n
        &&& d.rows.len() == rows.len() - 1
        &&& forall|i: int| 0 <= i < n ==> (#[trigger] d.columns[i]).name == rows[0][i]
        &&& forall|r: int| 0 <= r < d.rows.len() ==> (#[trigger] d.rows[r]).len() == n
        &&& forall|r: int, i: int|
            0 <= r < d.rows.len() && 0 <= i < n ==> #[trigger] d.rows[r][i] == parse_spec(
                rows[r + 1][i],
            )
    }
}

/// A printable ASCII character.
pub open spec fn printable_ascii(c: char) -> bool {
    0x20 <= (c as u32) < 0x7F
}

/// Every cell of the table printable ASCII.
pub open spec fn ascii_table(rows: Seq<Seq<Seq<char>>>) -> bool {
    forall|r: int, i: int, j: int|
        0 <= r < rows.len() && 0 <= i < rows[0].len() && 0 <= j < rows[r][i].len()
            ==> printable_ascii(#[trigger] rows[r][i][j])
}

/// unicode-width gives every printable ASCII character one column: asked
/// of each of them in turn.
pub(crate) fn ascii_is_narrow()
    ensures
        forall|c: char| printable_ascii(c) ==> char_columns(c) == 1,
{
    let mut b: u8 = 0x20;
    while b < 0x7F
        invariant
            0x20 <= b <= 0x7F,
            forall|c: char| 0x20 <= (c as u32) < b ==> char_columns(c) == 1,
        decreases 0x7F - b,
    {
        let c = b as char;
        assert(c as u32 == b as u32);
        let _ = crate::width::char_width(c);
        assert forall|d: char| 0x20 <= (d as u32) < b + 1 implies char_columns(d) == 1 by {
            if d as u32 == b as u32 {
                vstd::utf8::char_u32_cast(d, d as u32);
                vstd::utf8::char_u32_cast(c, c as u32);
                assert(d == c);
            }
        }
        b = b + 1;
    }
}

/// With every printable ASCII character one column wide, a table of
/// printable ASCII is narrow.
pub(crate) proof fn lemma_ascii_narrow(rows: Seq<Seq<Seq<char>>>)
    requires
        ascii_table(rows),
        forall|c: char| printable_ascii(c) ==> char_columns(c) == 1,
    ensures
        narrow_table(rows),
{
    assert(printable_ascii(' ') && printable_ascii('|'));
    assert forall|r: int, i: int| 0 <= r < rows.len() && 0 <= i < rows[0].len() implies narrow(
        #[trigger] rows[r][i],
    ) by {
        assert forall|j: int| 0 <= j < rows[r][i].len() implies char_columns(#[trigger] rows[r][i][j])
            == 1 by {
            assert(printable_ascii(rows[r][i][j]));
        }
    }
}

/// psql's layout of a table reads back as that table: the names over the
/// rule, and under it each row's cells, parsed. That holds for any table of
/// one or more columns whose cells hold no control characters and no space
/// at either end, none of whose rows reads as the `(n rows)` footer, and
/// whose characters are each one column wide.
pub proof fn law_psql_reads_back(rows: Seq<Seq<Seq<char>>>)
    requires
        readable_table(rows),
        psql_spec(rows).len() <= usize::MAX,
    ensures
        narrow_table(rows) ==> reads_back_as(text_of_table(rows), rows),
{
    if narrow_table(rows) {
        let widths = psql_widths(rows);
        let n = rows[0].len() as int;
        let m = rows.len() - 1;
        let rp = rule_parts(widths);
        let all = all_lines(rows);
        let text = psql_spec(rows);
        lemma_widths_fit(rows);
        lemma_psql_joined(rows);
        let l0 = psql_line(rows[0], widths);
        let l1 = join(rp, seq!['+']);
        assert(text.len() >= l0.len() + 1 + l1.len() + 1);
        // Every line is clean, so the lines read back as they were written.
        assert forall|r: int| 0 <= r < rows.len() implies clean(
            #[trigger] psql_line(rows[r], widths),
        ) && narrow(psql_line(rows[r], widths)) by {
            assert forall|i: int| 0 <= i < widths.len() implies clean(#[trigger] rows[r][i]) by {}
            assert forall|i: int| 0 <= i < widths.len() implies narrow(#[trigger] rows[r][i]) by {}
            lemma_line_clean(rows[r], widths);
        }
        lemma_line_segs(rows[0], widths, n);
        lemma_line_cell(rows[0], widths, 0);
        lemma_rule_line(widths);
        lemma_footer(m as nat);
        assert forall|k: int| 0 <= k < all.len() implies clean(#[trigger] all[k]) by {
            if k == 0 {
            } else if k == 1 {
            } else if rows.len() > 1 && k < 2 + m {
                assert(all[k] == psql_line(rows[k - 1], widths));
            } else if rows.len() <= 1 && k == 2 {
                assert(all[k] =~= Seq::<char>::empty());
            } else if k == all.len() - 3 {
                assert(all[k] == footer(m as nat));
            } else {
                assert(all[k] =~= Seq::<char>::empty());
            }
        }
        lemma_clean_lines(all);
        let lines = crate::input::clean_lines(text);
        assert(lines == all);
        // The first rule is the second line.
        assert(l0[0] == ' ');
        assert(!is_rule_spec(l0));
        assert(is_first_rule(lines, 1));
        let r = choose|r: int| is_first_rule(lines, r);
        lemma_first_rule_unique(lines, r, 1);
        // The rule's `+` line up with the names' `|`.
        lemma_header_lines_up(rows[0], widths);
        lemma_rule_spans(widths);
        let seps = plus_positions(l1);
        let spans = spans_spec(l1.len() as int, seps);
        // The rows run to the footer.
        assert(is_rows_end(lines, 1, 2 + m)) by {
            assert forall|k: int| 2 <= k < 2 + m implies !ends_rows(#[trigger] lines[k]) by {
                assert(lines[k] == psql_line(rows[k - 1], widths));
                lemma_line_cell(rows[k - 1], widths, 0);
                lemma_line_segs(rows[k - 1], widths, 0);
                assert(1 <= k - 1 < rows.len());
            }
            if m > 0 {
                assert(lines[2 + m] == footer(m as nat));
            } else {
                assert(lines[2] =~= Seq::<char>::empty());
            }
        }
        let e = choose|e: int| #[trigger] is_rows_end(lines, 1, e);
        lemma_body_end_unique(lines, 2, e, 2 + m);
        let drows = lines.subrange(2, e).map_values(|l: Seq<char>| row_spec(l, spans));
        let d = table_spec(text)->0;
        assert(d.rows == drows);
        assert forall|i: int| 0 <= i < n implies (#[trigger] d.columns[i]).name == rows[0][i] by {
            lemma_cell_reads_back(rows[0], widths, i);
        }
        assert forall|q: int, i: int|
            0 <= q < d.rows.len() && 0 <= i < n implies #[trigger] d.rows[q][i] == parse_spec(
            rows[q + 1][i],
        ) by {
            assert(lines[2 + q] == psql_line(rows[q + 1], widths));
            lemma_join_part_len(all, '\n', 2 + q);
            lemma_cell_reads_back(rows[q + 1], widths, i);
        }
    }
}

/// Cleaning lines goes line by line, so a line break splits the cleaned
/// lines too.
proof fn lemma_clean_lines_append(x: Seq<char>, y: Seq<char>)
    ensures
        clean_lines(x + seq!['\n'] + y) == clean_lines(x) + clean_lines(y),
{
    lemma_split_append(x, y);
    let f = |l: Seq<char>| sanitize_spec(strip_cr(l));
    assert((split_lines(x) + split_lines(y)).map_values(f) =~= split_lines(x).map_values(f)
        + split_lines(y).map_values(f));
}

/// Lines put above a table change nothing, so long as none of them is a
/// rule and the table's own text does not start with its rule.
pub proof fn law_lines_above_are_dropped(above: Seq<char>, text: Seq<char>)
    requires
        forall|k: int|
            0 <= k < clean_lines(above).len() ==> !is_rule_spec(#[trigger] clean_lines(above)[k]),
        !is_rule_spec(clean_lines(text)[0]),
    ensures
        table_spec(above + seq!['\n'] + text) == table_spec(text),
{
    let a = clean_lines(above);
    let t = clean_lines(text);
    let all = clean_lines(above + seq!['\n'] + text);
    lemma_clean_lines_append(above, text);
    crate::input::lemma_split_len(text);
    assert(all == a + t);
    let p = a.len() as int;
    if exists|r: int| is_first_rule(t, r) {
        let r = choose|r: int| is_first_rule(t, r);
        assert(r > 0);
        assert(is_first_rule(all, p + r)) by {
            assert(all[p + r] == t[r]);
            assert forall|k: int| 0 <= k < p + r implies !is_rule_spec(#[trigger] all[k]) by {
                if k < p {
                    assert(all[k] == a[k]);
                } else {
                    assert(all[k] == t[k - p]);
                }
            }
        }
        let r2 = choose|r: int| is_first_rule(all, r);
        lemma_first_rule_unique(all, r2, p + r);
        assert(all[p + r - 1] == t[r - 1]);
        assert(all[p + r] == t[r]);
        if exists|e: int| is_rows_end(t, r, e) {
            let e = choose|e: int| #[trigger] is_rows_end(t, r, e);
            assert(is_rows_end(all, p + r, p + e)) by {
                if p + e < all.len() {
                    assert(all[p + e] == t[e]);
                }
                assert forall|k: int| p + r + 1 <= k < p + e implies !ends_rows(#[trigger] all[k]) by {
                    assert(all[k] == t[k - p]);
                    assert(!ends_rows(t[k - p]));
                }
            }
            let e2 = choose|e: int| #[trigger] is_rows_end(all, p + r, e);
            lemma_body_end_unique(all, p + r + 1, e2, p + e);
            assert(all.subrange(p + r + 1, p + e) =~= t.subrange(r + 1, e));
        } else {
            lemma_rows_end_exists(t, r + 1, r + 1);
            let e = choose|e: int| #[trigger] is_body_end(t, r + 1, e);
            assert(is_rows_end(t, r, e));
        }
    } else {
        if exists|r: int| is_first_rule(all, r) {
            let r = choose|r: int| is_first_rule(all, r);
            if r < p {
                assert(all[r] == a[r]);
            } else {
                assert(all[r] == t[r - p]);
                assert(is_first_rule(t, r - p)) by {
                    assert forall|k: int| 0 <= k < r - p implies !is_rule_spec(#[trigger] t[k]) by {
                        assert(t[k] == all[k + p]);
                    }
                }
            }
        }
    }
}

/// Some line at or after `start` ends the rows, or the input does.
proof fn lemma_rows_end_exists(lines: Seq<Seq<char>>, start: int, k: int)
    requires
        0 <= start <= k <= lines.len(),
        forall|j: int| start <= j < k ==> !ends_rows(#[trigger] lines[j]),
    ensures
        exists|e: int| is_body_end(lines, start, e),
    decreases lines.len() - k,
{
    if k == lines.len() || ends_rows(lines[k]) {
        assert(is_body_end(lines, start, k));
    } else {
        lemma_rows_end_exists(lines, start, k + 1);
    }
}

/// Whatever comes after the line that ends a table's rows (a blank line or
/// the `(n rows)` footer) changes nothing.
pub proof fn law_text_below_is_dropped(head: Seq<char>, below1: Seq<char>, below2: Seq<char>)
    requires
        exists|r: int, k: int|
            #![trigger is_first_rule(clean_lines(head), r), ends_rows(clean_lines(head)[k])]
            is_first_rule(clean_lines(head), r) && r < k < clean_lines(head).len() && ends_rows(
                clean_lines(head)[k],
            ),
    ensures
        table_spec(head + seq!['\n'] + below1) == table_spec(head + seq!['\n'] + below2),
{
    let h = clean_lines(head);
    let (r, k) = choose|r: int, k: int|
        #![trigger is_first_rule(clean_lines(head), r), ends_rows(clean_lines(head)[k])]
        is_first_rule(clean_lines(head), r) && r < k < clean_lines(head).len() && ends_rows(
            clean_lines(head)[k],
        );
    lemma_text_below(head, below1, r, k);
    lemma_text_below(head, below2, r, k);
}

/// With its rule and the end of its rows inside `head`, the table is
/// `head`'s alone.
proof fn lemma_text_below(head: Seq<char>, below: Seq<char>, r: int, k: int)
    requires
        is_first_rule(clean_lines(head), r),
        r < k < clean_lines(head).len(),
        ends_rows(clean_lines(head)[k]),
    ensures
        table_spec(head + seq!['\n'] + below) == table_spec(head),
{
    let h = clean_lines(head);
    let all = clean_lines(head + seq!['\n'] + below);
    lemma_clean_lines_append(head, below);
    assert(all == h + clean_lines(below));
    assert(is_first_rule(all, r)) by {
        assert(all[r] == h[r]);
        assert forall|j: int| 0 <= j < r implies !is_rule_spec(#[trigger] all[j]) by {
            assert(all[j] == h[j]);
        }
    }
    let r1 = choose|r: int| is_first_rule(h, r);
    lemma_first_rule_unique(h, r1, r);
    let r2 = choose|r: int| is_first_rule(all, r);
    lemma_first_rule_unique(all, r2, r);
    if r > 0 {
        assert(all[r - 1] == h[r - 1]);
    }
    lemma_first_end(h, r + 1, k);
    let e0 = choose|e: int| #[trigger] is_body_end(h, r + 1, e);
    assert(is_rows_end(h, r, e0));
    let e = choose|e: int| #[trigger] is_rows_end(h, r, e);
    assert(is_body_end(h, r + 1, e));
    assert(e <= k);
    assert(is_rows_end(all, r, e)) by {
        if e < all.len() {
            assert(all[e] == h[e]);
        }
        assert forall|j: int| r + 1 <= j < e implies !ends_rows(#[trigger] all[j]) by {
            assert(all[j] == h[j]);
        }
    }
    let e2 = choose|e: int| #[trigger] is_rows_end(all, r, e);
    lemma_body_end_unique(all, r + 1, e2, e);
    assert(all.subrange(r + 1, e) =~= h.subrange(r + 1, e));
}

/// The rows end no later than a line that ends them.
proof fn lemma_first_end(lines: Seq<Seq<char>>, start: int, k: int)
    requires
        0 <= start <= k < lines.len(),
        ends_rows(lines[k]),
    ensures
        exists|e: int| #[trigger] is_body_end(lines, start, e),
        forall|e: int| #[trigger] is_body_end(lines, start, e) ==> e <= k,
{
    lemma_rows_end_exists(lines, start, start);
    assert forall|e: int| #[trigger] is_body_end(lines, start, e) implies e <= k by {
        if e > k {
            assert(!ends_rows(lines[k]));
        }
    }
}

} // verus!
