//! Laying the table out on screen.
//!
//! The table is laid out here rather than replayed from the input: each cell is
//! written out from its [`Data`], padded to its column's width, and the row is
//! then clipped to the horizontal viewport. A pretty-printed JSON cell covers
//! several lines, so a row is as tall as its tallest cell.
//!
//! A line is a list of segments, each a text and how to paint it. How a
//! segment is painted is up to the caller (`S`); the glyphs of the grid are
//! handed in too.

use vstd::prelude::*;

use crate::app::{
    law_row_at_finds_the_row, lemma_offsets_grow, lemma_offsets_increasing, offset_at, row_at_spec,
    row_height_spec, total_lines_spec, App,
};
use crate::chars::push_char;
use crate::json::Layout;
use crate::data::{digest, digest_spec, render_spec, Data, DataKind, DataView};
use crate::input::{lemma_map_push, row_view};
use crate::width::{
    cap, char_columns, display_width, lemma_slice_width, lemma_width_concat, lemma_width_spaces,
    push_spaces, reach, slice_columns, slice_spec, spaces, width_of,
};

verus! {

/// The mathematical value of a line of segments.
pub open spec fn segs_view<S>(v: Seq<(String, S)>) -> Seq<(Seq<char>, S)> {
    v.map_values(|p: (String, S)| (p.0@, p.1))
}

/// How many spaces `text` needs to fill `width` columns.
pub open spec fn shortfall(text: Seq<char>, width: int) -> int {
    let w = cap(width_of(text) as int);
    if width > w {
        width - w
    } else {
        0
    }
}

/// `text` padded with spaces to `width` columns, on the left when it is
/// right-aligned.
pub open spec fn pad_spec(text: Seq<char>, width: int, right_align: bool) -> Seq<char> {
    if right_align {
        spaces(shortfall(text, width)) + text
    } else {
        text + spaces(shortfall(text, width))
    }
}

pub fn pad(text: &str, width: usize, right_align: bool) -> (s: String)
    ensures
        s@ == pad_spec(text@, width as int, right_align),
{
    let fill = width.saturating_sub(display_width(text));
    let mut out = String::new();
    if right_align {
        push_spaces(&mut out, fill);
        out.append(text);
    } else {
        out.append(text);
        push_spaces(&mut out, fill);
    }
    proof {
        if right_align {
            assert(out@ =~= spaces(fill as int) + text@);
        } else {
            assert(out@ =~= text@ + spaces(fill as int));
        }
    }
    out
}

/// `text` in the middle of `width` columns, any odd space on the right.
pub open spec fn center_spec(text: Seq<char>, width: int) -> Seq<char> {
    let fill = shortfall(text, width);
    spaces(fill / 2) + text + spaces(fill - fill / 2)
}

pub fn center(text: &str, width: usize) -> (s: String)
    ensures
        s@ == center_spec(text@, width as int),
{
    let fill = width.saturating_sub(display_width(text));
    let mut out = String::new();
    push_spaces(&mut out, fill / 2);
    out.append(text);
    push_spaces(&mut out, fill - fill / 2);
    assert(out@ =~= spaces((fill / 2) as int) + text@ + spaces((fill - fill / 2) as int));
    out
}

/// The display width of a line of segments, added up (stopping at
/// `usize::MAX`).
pub open spec fn segs_width<S>(line: Seq<(Seq<char>, S)>) -> int
    decreases line.len(),
{
    if line.len() == 0 {
        0
    } else {
        cap(segs_width(line.drop_last()) + cap(width_of(line.last().0) as int))
    }
}

/// A laid-out cell padded out to its column's width.
pub open spec fn fill_spec<S>(line: Seq<(Seq<char>, S)>, width: int, plain: S) -> Seq<
    (Seq<char>, S),
> {
    let used = segs_width(line);
    if used < width {
        line.push((spaces(width - used), plain))
    } else {
        line
    }
}

/// Pad a laid-out cell out to its column's width.
pub fn fill<S: Copy>(line: Vec<(String, S)>, width: usize, plain: S) -> (out: Vec<(String, S)>)
    ensures
        segs_view(out@) == fill_spec(segs_view(line@), width as int, plain),
{
    let ghost lv = segs_view(line@);
    let mut used: usize = 0;
    let mut k: usize = 0;
    while k < line.len()
        invariant
            k <= line@.len(),
            lv == segs_view(line@),
            used as int == segs_width(lv.take(k as int)),
        decreases line@.len() - k,
    {
        assert(lv.take(k + 1).drop_last() =~= lv.take(k as int));
        used = used.saturating_add(display_width(line[k].0.as_str()));
        k += 1;
    }
    assert(lv.take(line@.len() as int) =~= lv);
    let mut line = line;
    if used < width {
        let mut blank = String::new();
        push_spaces(&mut blank, width - used);
        let ghost before = line@;
        line.push((blank, plain));
        proof {
            lemma_map_push(before, (blank, plain), |p: (String, S)| (p.0@, p.1));
        }
    }
    line
}

/// Lines of every column glued together, each cell with a space either side
/// and the separator between them, as psql puts them.
pub open spec fn join_spec<S>(
    cells: Seq<Seq<(Seq<char>, S)>>,
    sep: Seq<char>,
    grid: S,
    plain: S,
) -> Seq<(Seq<char>, S)>
    decreases cells.len(),
{
    if cells.len() == 0 {
        seq![]
    } else {
        join_spec(cells.drop_last(), sep, grid, plain) + (if cells.len() > 1 {
            seq![(sep, grid)]
        } else {
            seq![]
        }) + seq![(seq![' '], plain)] + cells.last() + seq![(seq![' '], plain)]
    }
}

pub open spec fn cells_view<S>(cells: Seq<Vec<(String, S)>>) -> Seq<Seq<(Seq<char>, S)>> {
    cells.map_values(|c: Vec<(String, S)>| segs_view(c@))
}

fn one_space() -> (s: String)
    ensures
        s@ == seq![' '],
{
    let mut s = String::new();
    push_char(&mut s, ' ');
    s
}

/// Append a copy of `src` to `out`.
fn extend_segs<S: Copy>(out: &mut Vec<(String, S)>, src: &Vec<(String, S)>)
    ensures
        segs_view(final(out)@) == segs_view(old(out)@) + segs_view(src@),
{
    let mut k: usize = 0;
    while k < src.len()
        invariant
            k <= src@.len(),
            segs_view(out@) == segs_view(old(out)@) + segs_view(src@).take(k as int),
        decreases src@.len() - k,
    {
        let text = src[k].0.clone();
        let style = src[k].1;
        let ghost before = out@;
        out.push((text, style));
        proof {
            lemma_map_push(before, (text, style), |p: (String, S)| (p.0@, p.1));
            assert(segs_view(out@) =~= segs_view(old(out)@) + segs_view(src@).take(k + 1));
        }
        k += 1;
    }
    assert(segs_view(src@).take(src@.len() as int) =~= segs_view(src@));
}

/// Glue one line of every column together with the padding and separators
/// psql puts between them.
pub fn join<S: Copy>(cells: &[Vec<(String, S)>], sep: &str, grid: S, plain: S) -> (out: Vec<
    (String, S),
>)
    ensures
        segs_view(out@) == join_spec(cells_view(cells@), sep@, grid, plain),
{
    let ghost cv = cells_view(cells@);
    let mut out: Vec<(String, S)> = Vec::new();
    let mut i: usize = 0;
    while i < cells.len()
        invariant
            i <= cells@.len(),
            cv == cells_view(cells@),
            segs_view(out@) == join_spec(cv.take(i as int), sep@, grid, plain),
        decreases cells@.len() - i,
    {
        let ghost before = segs_view(out@);
        if i > 0 {
            let ghost b = out@;
            let s = String::from_str(sep);
            out.push((s, grid));
            proof {
                lemma_map_push(b, (s, grid), |p: (String, S)| (p.0@, p.1));
            }
        }
        let ghost mid = segs_view(out@);
        let ghost b1 = out@;
        let sp = one_space();
        out.push((sp, plain));
        proof {
            lemma_map_push(b1, (sp, plain), |p: (String, S)| (p.0@, p.1));
        }
        extend_segs(&mut out, &cells[i]);
        let ghost b2 = out@;
        let sp2 = one_space();
        out.push((sp2, plain));
        proof {
            lemma_map_push(b2, (sp2, plain), |p: (String, S)| (p.0@, p.1));
            let t = cv.take(i + 1);
            assert(t.drop_last() =~= cv.take(i as int));
            assert(t.last() == cv[i as int]);
            assert(cv[i as int] == segs_view(cells@[i as int]@));
            if i > 0 {
                assert(mid =~= before + seq![(sep@, grid)]);
            } else {
                assert(mid =~= before);
            }
            assert(segs_view(out@) =~= join_spec(t, sep@, grid, plain));
        }
        i += 1;
    }
    assert(cv.take(cells@.len() as int) =~= cv);
    out
}

/// Clipping left to right: the segments kept so far, the display column the
/// next segment starts at, and whether the right edge has been reached.
pub open spec fn clip_fold<S>(segments: Seq<(Seq<char>, S)>, start: int, end: int) -> (
    Seq<(Seq<char>, S)>,
    int,
    bool,
)
    decreases segments.len(),
{
    if segments.len() == 0 {
        (seq![], 0, false)
    } else {
        let (out, x, done) = clip_fold(segments.drop_last(), start, end);
        if done {
            (out, x, done)
        } else {
            let (text, style) = segments.last();
            let w = cap(width_of(text) as int);
            let from = if x > start {
                x
            } else {
                start
            };
            let to = if cap(x + w) < end {
                cap(x + w)
            } else {
                end
            };
            let out2 = if from < to {
                out.push((slice_spec(text, from - x, to - from), style))
            } else {
                out
            };
            (out2, cap(x + w), cap(x + w) >= end)
        }
    }
}

/// The part of a line inside the display columns `[start, end)`.
pub open spec fn clip_spec<S>(segments: Seq<(Seq<char>, S)>, start: int, end: int) -> Seq<
    (Seq<char>, S),
> {
    clip_fold(segments, start, end).0
}

/// Keep the part of the line inside the horizontal viewport `[start, end)`.
pub fn clip<S: Copy>(segments: Vec<(String, S)>, start: usize, end: usize) -> (out: Vec<
    (String, S),
>)
    ensures
        (forall|k: int|
            0 <= k < segments@.len() ==> width_of(#[trigger] segments@[k].0@) <= usize::MAX)
            ==> segs_view(out@) == clip_spec(segs_view(segments@), start as int, end as int),
{
    let ghost sv = segs_view(segments@);
    let ghost fits = forall|k: int|
        0 <= k < segments@.len() ==> width_of(#[trigger] segments@[k].0@) <= usize::MAX;
    let mut spans: Vec<(String, S)> = Vec::new();
    let mut x: usize = 0;  // display column the next segment starts at
    let mut k: usize = 0;
    let mut done = false;
    while k < segments.len() && !done
        invariant
            k <= segments@.len(),
            sv == segs_view(segments@),
            fits == forall|k: int|
                0 <= k < segments@.len() ==> width_of(#[trigger] segments@[k].0@) <= usize::MAX,
            fits ==> (segs_view(spans@), x as int, done) == clip_fold(sv.take(k as int), start as int, end as int),
        decreases segments@.len() - k,
    {
        proof {
            assert(sv.take(k + 1).drop_last() =~= sv.take(k as int));
            assert(sv.take(k + 1).last() == sv[k as int]);
            assert(sv[k as int] == (segments@[k as int].0@, segments@[k as int].1));
        }
        let text = &segments[k].0;
        let style = segments[k].1;
        let width = display_width(text.as_str());
        let from = if x > start {
            x
        } else {
            start
        };
        let right = x.saturating_add(width);
        let to = if right < end {
            right
        } else {
            end
        };
        if from < to {
            let piece = slice_columns(text.as_str(), from - x, to - from);
            let ghost before = spans@;
            spans.push((piece, style));
            proof {
                lemma_map_push(before, (piece, style), |p: (String, S)| (p.0@, p.1));
            }
        }
        x = right;
        if x >= end {
            done = true;
        }
        k += 1;
    }
    proof {
        if fits && done && k < segments@.len() {
            lemma_clip_done(sv, k as int, start as int, end as int);
        }
        if fits {
            assert(sv.take(segments@.len() as int) =~= sv);
        }
    }
    spans
}

/// A padded cell fills its column: it is as wide as the column, or as the
/// text if that is wider (given, as unicode-width has it, a space one column
/// wide).
pub proof fn law_pad_fills_the_column(text: Seq<char>, width: int, right_align: bool)
    requires
        0 <= width <= usize::MAX,
        width_of(text) <= usize::MAX,
    ensures
        char_columns(' ') == 1 ==> width_of(pad_spec(text, width, right_align)) == if width_of(
            text,
        ) < width {
            width
        } else {
            width_of(text) as int
        },
{
    if char_columns(' ') == 1 {
        let n = shortfall(text, width);
        lemma_width_spaces(n);
        lemma_width_concat(spaces(n), text);
        lemma_width_concat(text, spaces(n));
    }
}

/// A centred name fills its column the same way.
pub proof fn law_center_fills_the_column(text: Seq<char>, width: int)
    requires
        0 <= width <= usize::MAX,
        width_of(text) <= usize::MAX,
    ensures
        char_columns(' ') == 1 ==> width_of(center_spec(text, width)) == if width_of(text)
            < width {
            width
        } else {
            width_of(text) as int
        },
{
    if char_columns(' ') == 1 {
        let n = shortfall(text, width);
        lemma_width_spaces(n / 2);
        lemma_width_spaces(n - n / 2);
        lemma_width_concat(spaces(n / 2), text);
        lemma_width_concat(spaces(n / 2) + text, spaces(n - n / 2));
    }
}

/// Clipping so far keeps as many columns as the line so far reaches into
/// the window, and stops only once it is past the right edge.
proof fn lemma_clip_fold_width<S>(segments: Seq<(Seq<char>, S)>, start: int, end: int)
    requires
        char_columns(' ') == 1,
        0 <= start <= end <= usize::MAX,
        forall|k: int| 0 <= k < segments.len() ==> width_of(#[trigger] segments[k].0) <= usize::MAX,
    ensures
        ({
            let (out, x, done) = clip_fold(segments, start, end);
            &&& segs_width(out) == reach(x, start, end - start)
            &&& 0 <= x <= segs_width(segments)
            &&& !done ==> x == segs_width(segments)
            &&& done ==> x >= end
        }),
    decreases segments.len(),
{
    if segments.len() > 0 {
        let prev = segments.drop_last();
        assert forall|k: int| 0 <= k < prev.len() implies width_of(#[trigger] prev[k].0)
            <= usize::MAX by {
            assert(prev[k] == segments[k]);
        }
        lemma_clip_fold_width(prev, start, end);
        let (out, x, done) = clip_fold(prev, start, end);
        if !done {
            let (text, style) = segments.last();
            assert(width_of(segments[segments.len() - 1].0) <= usize::MAX);
            let w = cap(width_of(text) as int);
            let from = if x > start {
                x
            } else {
                start
            };
            let to = if cap(x + w) < end {
                cap(x + w)
            } else {
                end
            };
            if from < to {
                let piece = slice_spec(text, from - x, to - from);
                lemma_slice_width(text, from - x, to - from);
                assert(width_of(piece) == to - from);
                assert(out.push((piece, style)).drop_last() =~= out);
            }
        }
    }
}

/// Clipping keeps exactly the part of a line inside the window: the
/// clipped line is as wide as the part of `[start, end)` the line reaches
/// into (given a space one column wide, which straddling wide characters
/// are replaced by).
pub proof fn law_clip_keeps_the_window<S>(segments: Seq<(Seq<char>, S)>, start: int, end: int)
    requires
        0 <= start <= end <= usize::MAX,
        forall|k: int| 0 <= k < segments.len() ==> width_of(#[trigger] segments[k].0) <= usize::MAX,
    ensures
        char_columns(' ') == 1 ==> segs_width(clip_spec(segments, start, end)) == reach(
            segs_width(segments),
            start,
            end - start,
        ),
{
    if char_columns(' ') == 1 {
        lemma_clip_fold_width(segments, start, end);
    }
}

/// The text of a line of segments, run together.
pub open spec fn segs_text<S>(segments: Seq<(Seq<char>, S)>) -> Seq<char>
    decreases segments.len(),
{
    if segments.len() == 0 {
        seq![]
    } else {
        segs_text(segments.drop_last()) + segments.last().0
    }
}

/// Every character of every segment one column wide.
pub open spec fn narrow_segs<S>(segments: Seq<(Seq<char>, S)>) -> bool {
    forall|k: int, i: int|
        0 <= k < segments.len() && 0 <= i < segments[k].0.len() ==> char_columns(
            #[trigger] segments[k].0[i],
        ) == 1
}

proof fn lemma_clip_fold_narrow<S>(segments: Seq<(Seq<char>, S)>, start: int, end: int)
    requires
        0 <= start <= end <= usize::MAX,
        segs_text(segments).len() <= usize::MAX,
        narrow_segs(segments),
    ensures
        ({
            let (out, x, done) = clip_fold(segments, start, end);
            let t = segs_text(segments);
            &&& 0 <= x <= t.len()
            &&& !done ==> x == t.len()
            &&& done ==> x >= end
            &&& segs_text(out) == t.subrange(
                if start < x {
                    start
                } else {
                    x
                },
                if end < x {
                    end
                } else {
                    x
                },
            )
        }),
    decreases segments.len(),
{
    if segments.len() == 0 {
        assert(segs_text(Seq::<(Seq<char>, S)>::empty()).subrange(0, 0) =~= Seq::<char>::empty());
    } else {
        let p = segments.drop_last();
        let (text, style) = segments.last();
        assert(narrow_segs(p)) by {
            assert forall|k: int, i: int| 0 <= k < p.len() && 0 <= i < p[k].0.len() implies char_columns(
                #[trigger] p[k].0[i],
            ) == 1 by {
                assert(p[k] == segments[k]);
            }
        }
        let tp = segs_text(p);
        let t = segs_text(segments);
        assert(t == tp + text);
        lemma_clip_fold_narrow(p, start, end);
        let (out, x, done) = clip_fold(p, start, end);
        if done {
            assert(t.subrange(
                if start < x {
                    start
                } else {
                    x
                },
                if end < x {
                    end
                } else {
                    x
                },
            ) =~= tp.subrange(
                if start < x {
                    start
                } else {
                    x
                },
                if end < x {
                    end
                } else {
                    x
                },
            ));
        } else {
            assert forall|i: int| 0 <= i < text.len() implies char_columns(#[trigger] text[i]) == 1 by {
                assert(segments[segments.len() - 1].0[i] == text[i]);
            }
            crate::width::lemma_width_one_each(text);
            let w = cap(width_of(text) as int);
            assert(w == text.len());
            let from = if x > start {
                x
            } else {
                start
            };
            let to = if cap(x + w) < end {
                cap(x + w)
            } else {
                end
            };
            let l = t.len() as int;
            if from < to {
                let piece = slice_spec(text, from - x, to - from);
                crate::width::law_slice_of_narrow_text(text, from - x, to - from);
                assert(piece == text.subrange(from - x, to - x));
                let out2 = out.push((piece, style));
                assert(out2.drop_last() =~= out);
                assert(segs_text(out2) == segs_text(out) + piece);
                assert(segs_text(out2) =~= t.subrange(
                    if start < l {
                        start
                    } else {
                        l
                    },
                    if end < l {
                        end
                    } else {
                        l
                    },
                ));
            } else {
                assert(segs_text(out) =~= t.subrange(
                    if start < l {
                        start
                    } else {
                        l
                    },
                    if end < l {
                        end
                    } else {
                        l
                    },
                ));
            }
        }
    }
}

/// Where every character is one column wide, clipping keeps exactly the
/// characters of the line, run together, from `start` up to `end` (or the
/// line's end).
pub proof fn law_clip_of_narrow_text<S>(segments: Seq<(Seq<char>, S)>, start: int, end: int)
    requires
        0 <= start <= end <= usize::MAX,
        segs_text(segments).len() <= usize::MAX,
    ensures
        narrow_segs(segments) ==> segs_text(clip_spec(segments, start, end)) == segs_text(
            segments,
        ).subrange(
            if start < segs_text(segments).len() {
                start
            } else {
                segs_text(segments).len() as int
            },
            if end < segs_text(segments).len() {
                end
            } else {
                segs_text(segments).len() as int
            },
        ),
{
    if narrow_segs(segments) {
        lemma_clip_fold_narrow(segments, start, end);
    }
}

proof fn lemma_clip_done<S>(sv: Seq<(Seq<char>, S)>, k: int, start: int, end: int)
    requires
        0 <= k <= sv.len(),
        clip_fold(sv.take(k), start, end).2,
    ensures
        clip_fold(sv, start, end) == clip_fold(sv.take(k), start, end),
    decreases sv.len() - k,
{
    if k < sv.len() {
        assert(sv.take(k + 1).drop_last() =~= sv.take(k));
        lemma_clip_done(sv, k + 1, start, end);
    } else {
        assert(sv.take(k) =~= sv);
    }
}

} // verus!

verus! {

pub open spec fn lines_view<S>(v: Seq<Vec<(String, S)>>) -> Seq<Seq<(Seq<char>, S)>> {
    cells_view(v)
}

pub open spec fn cells3_view<S>(cells: Seq<Vec<Vec<(String, S)>>>) -> Seq<
    Seq<Seq<(Seq<char>, S)>>,
> {
    cells.map_values(|c: Vec<Vec<(String, S)>>| cells_view(c@))
}

/// The most lines any of the first `k` cells has.
pub open spec fn most_lines<S>(cells: Seq<Seq<Seq<(Seq<char>, S)>>>, k: int) -> int
    decreases k,
{
    if k <= 0 {
        0
    } else {
        let h = cells[k - 1].len() as int;
        let m = most_lines(cells, k - 1);
        if h > m {
            h
        } else {
            m
        }
    }
}

/// One row laid out, as one line per line of its tallest cell; a cell
/// shorter than the row leaves its width blank.
pub open spec fn row_lines_spec<S>(
    cells: Seq<Seq<Seq<(Seq<char>, S)>>>,
    widths: Seq<int>,
    sep: Seq<char>,
    grid: S,
    plain: S,
) -> Seq<Seq<(Seq<char>, S)>> {
    let height = if cells.len() == 0 {
        1
    } else {
        most_lines(cells, cells.len() as int)
    };
    Seq::new(
        height as nat,
        |l: int|
            join_spec(
                Seq::new(
                    cells.len(),
                    |i: int|
                        if l < cells[i].len() {
                            cells[i][l]
                        } else {
                            seq![(spaces(widths[i]), plain)]
                        },
                ),
                sep,
                grid,
                plain,
            ),
    )
}

/// Lay one row out, as one line per line of its tallest cell. `cells` holds
/// each cell's lines, already padded to its column's width.
pub fn row_lines<S: Copy>(
    app: &App,
    cells: &Vec<Vec<Vec<(String, S)>>>,
    sep: &str,
    grid: S,
    plain: S,
) -> (lines: Vec<Vec<(String, S)>>)
    requires
        app.inv(),
        cells@.len() <= app.doc.columns@.len(),
    ensures
        lines_view(lines@) == row_lines_spec(
            cells3_view(cells@),
            app.widths_now(),
            sep@,
            grid,
            plain,
        ),
{
    let ghost cv = cells3_view(cells@);
    let n = cells.len();
    let mut height: usize = 0;
    let mut i: usize = 0;
    while i < n
        invariant
            i <= n == cells@.len(),
            cv == cells3_view(cells@),
            height as int == most_lines(cv, i as int),
        decreases n - i,
    {
        assert(cv[i as int] == cells_view(cells@[i as int]@));
        if cells[i].len() > height {
            height = cells[i].len();
        }
        i += 1;
    }
    if n == 0 {
        height = 1;
    }
    let ghost want = row_lines_spec(cv, app.widths_now(), sep@, grid, plain);
    let mut lines: Vec<Vec<(String, S)>> = Vec::new();
    let mut l: usize = 0;
    while l < height
        invariant
            l <= height,
            height as int == if n == 0 {
                1
            } else {
                most_lines(cv, n as int)
            },
            n == cells@.len() <= app.doc.columns@.len(),
            app.inv(),
            cv == cells3_view(cells@),
            want == row_lines_spec(cv, app.widths_now(), sep@, grid, plain),
            lines_view(lines@) == want.take(l as int),
        decreases height - l,
    {
        let ghost parts = Seq::new(
            cv.len(),
            |i: int|
                if l < cv[i].len() {
                    cv[i][l as int]
                } else {
                    seq![(spaces(app.widths_now()[i]), plain)]
                },
        );
        let mut row: Vec<Vec<(String, S)>> = Vec::new();
        let mut i: usize = 0;
        while i < n
            invariant
                i <= n == cells@.len() <= app.doc.columns@.len(),
                app.inv(),
                cv == cells3_view(cells@),
                parts == Seq::new(
                    cv.len(),
                    |i: int|
                        if l < cv[i].len() {
                            cv[i][l as int]
                        } else {
                            seq![(spaces(app.widths_now()[i]), plain)]
                        },
                ),
                cells_view(row@) == parts.take(i as int),
            decreases n - i,
        {
            assert(cv[i as int] == cells_view(cells@[i as int]@));
            let mut seg: Vec<(String, S)> = Vec::new();
            if l < cells[i].len() {
                extend_segs(&mut seg, &cells[i][l]);
                assert(segs_view(seg@) =~= parts[i as int]);
            } else {
                let w = app.width(i);
                let mut blank = String::new();
                push_spaces(&mut blank, w);
                seg.push((blank, plain));
                assert(segs_view(seg@) =~= parts[i as int]);
            }
            let ghost before = row@;
            row.push(seg);
            proof {
                lemma_map_push(before, seg, |c: Vec<(String, S)>| segs_view(c@));
                assert(parts.take(i + 1) =~= parts.take(i as int).push(parts[i as int]));
            }
            i += 1;
        }
        assert(parts.take(n as int) =~= parts);
        let joined = join(row.as_slice(), sep, grid, plain);
        let ghost before = lines@;
        lines.push(joined);
        proof {
            lemma_map_push(before, joined, |c: Vec<(String, S)>| segs_view(c@));
            assert(want[l as int] == join_spec(parts, sep@, grid, plain));
            assert(want.take(l + 1) =~= want.take(l as int).push(want[l as int]));
        }
        l += 1;
    }
    assert(want.take(height as int) =~= want);
    lines
}

/// The text a cell other than JSON is written as: blobs shown readable as
/// their digest, everything else as rendered; padded to the column, numbers
/// on the right.
pub open spec fn cell_text_spec(app: App, column: int, cell: DataView) -> Seq<char> {
    let text = match cell {
        DataView::Bytes(b) => if app.readable@[column] {
            digest_spec(b)
        } else {
            render_spec(cell)
        },
        _ => render_spec(cell),
    };
    let kind = app.doc.columns@[column].kind;
    pad_spec(
        text,
        app.widths_now()[column],
        kind == DataKind::Integer || kind == DataKind::Decimal,
    )
}

/// Write one cell (other than JSON, which keeps its own colours) out, padded
/// to its column.
pub fn cell_text(app: &App, column: usize, cell: &Data) -> (s: String)
    requires
        app.inv(),
        column < app.doc.columns@.len(),
    ensures
        s@ == cell_text_spec(*app, column as int, cell@),
{
    let width = app.width(column);
    let numeric = app.doc.columns[column].kind.is_numeric();
    let text = match cell {
        Data::Bytes(b) => if app.readable[column] {
            digest(b.as_slice())
        } else {
            cell.render()
        },
        _ => cell.render(),
    };
    pad(text.as_str(), width, numeric)
}

/// How a JSON cell of `column` is written out: pretty-printed over several
/// lines when the column shows its readable form, on one line otherwise.
pub fn json_layout(app: &App, column: usize) -> (l: Layout)
    requires
        app.inv(),
        column < app.doc.columns@.len(),
    ensures
        l == if app.readable@[column as int] {
            Layout::Pretty
        } else {
            Layout::Compact
        },
{
    if app.readable[column] {
        Layout::Pretty
    } else {
        Layout::Compact
    }
}

/// The column names, each centred over its column.
pub fn header_names(app: &App) -> (names: Vec<String>)
    requires
        app.inv(),
    ensures
        names@.len() == app.doc.columns@.len(),
        forall|i: int|
            0 <= i < names@.len() ==> #[trigger] names@[i]@ == center_spec(
                app.doc.columns@[i].name@,
                app.widths_now()[i],
            ),
{
    let mut names: Vec<String> = Vec::new();
    let mut i: usize = 0;
    while i < app.doc.columns.len()
        invariant
            app.inv(),
            i <= app.doc.columns@.len(),
            names@.len() == i,
            forall|j: int|
                0 <= j < i ==> #[trigger] names@[j]@ == center_spec(
                    app.doc.columns@[j].name@,
                    app.widths_now()[j],
                ),
        decreases app.doc.columns@.len() - i,
    {
        let w = app.width(i);
        names.push(center(app.doc.columns[i].name.as_str(), w));
        i += 1;
    }
    names
}

/// `s` written `n` times.
pub open spec fn repeat_str(s: Seq<char>, n: int) -> Seq<char>
    decreases n,
{
    if n <= 0 {
        seq![]
    } else {
        repeat_str(s, n - 1) + s
    }
}

/// `parts` joined with `sep` between them.
pub open spec fn join_text(parts: Seq<Seq<char>>, sep: Seq<char>) -> Seq<char>
    decreases parts.len(),
{
    if parts.len() == 0 {
        seq![]
    } else if parts.len() == 1 {
        parts[0]
    } else {
        join_text(parts.drop_last(), sep) + sep + parts.last()
    }
}

/// The rule under the names: it spans the padding as well, and crosses
/// rather than meets.
pub open spec fn rule_spec(widths: Seq<int>, horizontal: Seq<char>, cross: Seq<char>) -> Seq<char> {
    join_text(Seq::new(widths.len(), |i: int| repeat_str(horizontal, cap(widths[i] + 2))), cross)
}

pub fn rule_text(app: &App, horizontal: &str, cross: &str) -> (s: String)
    requires
        app.inv(),
    ensures
        s@ == rule_spec(app.widths_now(), horizontal@, cross@),
{
    let ghost parts = Seq::new(
        app.widths_now().len(),
        |i: int| repeat_str(horizontal@, cap(app.widths_now()[i] + 2)),
    );
    let n = app.doc.columns.len();
    let mut out = String::new();
    let mut i: usize = 0;
    while i < n
        invariant
            app.inv(),
            i <= n == app.doc.columns@.len() == app.widths_now().len(),
            parts == Seq::new(
                app.widths_now().len(),
                |i: int| repeat_str(horizontal@, cap(app.widths_now()[i] + 2)),
            ),
            out@ == join_text(parts.take(i as int), cross@),
        decreases n - i,
    {
        let ghost before = out@;
        if i > 0 {
            out.append(cross);
        }
        let ghost mid = out@;
        let count = app.width(i).saturating_add(2);
        let mut k: usize = 0;
        while k < count
            invariant
                k <= count,
                out@ == mid + repeat_str(horizontal@, k as int),
            decreases count - k,
        {
            out.append(horizontal);
            k += 1;
            assert(out@ =~= mid + repeat_str(horizontal@, k as int));
        }
        proof {
            let t = parts.take(i + 1);
            assert(t.drop_last() =~= parts.take(i as int));
            assert(t.last() == parts[i as int]);
            if i > 0 {
                assert(out@ =~= join_text(t, cross@));
            } else {
                assert(t =~= seq![parts[0]]);
            }
        }
        i += 1;
    }
    assert(parts.take(n as int) =~= parts);
    out
}

/// The screen lines of the body, from row `row` line `skip` on, as many as
/// fit in `room`: each a row and a line within it.
pub open spec fn plan_from(app: App, row: int, skip: int, room: int) -> Seq<(int, int)>
    decreases app.doc@.rows.len() - row,
{
    if room <= 0 || row < 0 || row >= app.doc@.rows.len() {
        seq![]
    } else {
        let h = row_height_spec(app.doc@.rows[row], app.readable@);
        let avail = if h > skip {
            h - skip
        } else {
            0
        };
        let k = if avail < room {
            avail
        } else {
            room
        };
        Seq::new(k as nat, |j: int| (row, skip + j)) + plan_from(app, row + 1, 0, room - k)
    }
}

/// Fill the viewport from `top`, which can start part-way down a tall row.
pub open spec fn body_plan_spec(app: App) -> Seq<(int, int)> {
    let (row, skip) = row_at_spec(app.doc@, app.readable@, app.top as int);
    plan_from(app, row, skip, app.view_height as int)
}

/// From row `row`, line `skip` on, the plan lists the table's lines in
/// order, as many as fit and the table has.
proof fn lemma_plan_from_window(app: App, row: int, skip: int, room: int)
    requires
        0 <= row < app.doc@.rows.len(),
        0 <= skip < row_height_spec(app.doc@.rows[row], app.readable@),
        room >= 0,
        total_lines_spec(app.doc@, app.readable@) < usize::MAX,
    ensures
        ({
            let doc = app.doc@;
            let rd = app.readable@;
            let line0 = offset_at(doc, rd, row) + skip;
            let left = total_lines_spec(doc, rd) - line0;
            let plan = plan_from(app, row, skip, room);
            &&& plan.len() == if room < left {
                room
            } else {
                left
            }
            &&& forall|j: int| 0 <= j < plan.len() ==> #[trigger] plan[j] == row_at_spec(doc, rd, line0 + j)
        }),
    decreases app.doc@.rows.len() - row,
{
    let doc = app.doc@;
    let rd = app.readable@;
    let n = doc.rows.len() as int;
    let h = row_height_spec(doc.rows[row], rd);
    let start = offset_at(doc, rd, row);
    let line0 = start + skip;
    let total = total_lines_spec(doc, rd);
    lemma_offsets_increasing(doc, rd, row, row + 1);
    lemma_offsets_grow(doc, rd, row);
    assert(offset_at(doc, rd, row + 1) == start + h);
    let avail = h - skip;
    let k = if avail < room {
        avail
    } else {
        room
    };
    let first = Seq::new(k as nat, |j: int| (row, skip + j));
    let rest = plan_from(app, row + 1, 0, room - k);
    assert(plan_from(app, row, skip, room) == first + rest);
    assert forall|j: int| 0 <= j < k implies #[trigger] first[j] == row_at_spec(doc, rd, line0 + j) by {
        let line = line0 + j;
        law_row_at_finds_the_row(doc, rd, line);
        let (r2, s2) = row_at_spec(doc, rd, line);
        if r2 < row {
            if r2 + 1 < row {
                lemma_offsets_increasing(doc, rd, r2 + 1, row);
            }
        } else if r2 > row {
            if row + 1 < r2 {
                lemma_offsets_increasing(doc, rd, row + 1, r2);
            }
        }
    }
    if room - k > 0 {
        assert(k == avail);
        if row + 1 < n {
            lemma_height_at_least_one_for(app, row + 1);
            lemma_plan_from_window(app, row + 1, 0, room - k);
            assert forall|j: int| 0 <= j < rest.len() implies #[trigger] rest[j] == row_at_spec(
                doc,
                rd,
                line0 + k + j,
            ) by {}
        } else {
            assert(rest.len() == 0);
            assert(total == start + h);
        }
    } else {
        assert(rest.len() == 0);
        if row + 1 < n {
            lemma_offsets_increasing(doc, rd, row + 1, n);
        }
    }
    let plan = first + rest;
    assert forall|j: int| 0 <= j < plan.len() implies #[trigger] plan[j] == row_at_spec(
        doc,
        rd,
        line0 + j,
    ) by {
        if j < k {
            assert(plan[j] == first[j]);
        } else {
            assert(plan[j] == rest[j - k]);
        }
    }
}

proof fn lemma_height_at_least_one_for(app: App, row: int)
    requires
        0 <= row < app.doc@.rows.len(),
    ensures
        row_height_spec(app.doc@.rows[row], app.readable@) >= 1,
{
    let r = app.doc@.rows[row];
    let rd = app.readable@;
    crate::app::lemma_height_at_least_one(
        r,
        rd,
        if r.len() < rd.len() {
            r.len() as int
        } else {
            rd.len() as int
        },
    );
}

/// The body shows the table's lines from `top` down, in order, as many as
/// fit on the screen and the table has left.
pub proof fn law_body_shows_the_window(app: App)
    requires
        app.inv(),
        total_lines_spec(app.doc@, app.readable@) < usize::MAX,
        app.top < total_lines_spec(app.doc@, app.readable@),
    ensures
        ({
            let doc = app.doc@;
            let rd = app.readable@;
            let left = total_lines_spec(doc, rd) - app.top;
            let plan = body_plan_spec(app);
            &&& plan.len() == if app.view_height < left {
                app.view_height as int
            } else {
                left
            }
            &&& forall|j: int| 0 <= j < plan.len() ==> #[trigger] plan[j] == row_at_spec(doc, rd, app.top + j)
        }),
{
    let doc = app.doc@;
    let rd = app.readable@;
    assert(doc.rows.len() > 0) by {
        if doc.rows.len() == 0 {
            assert(total_lines_spec(doc, rd) == 0);
        }
    }
    law_row_at_finds_the_row(doc, rd, app.top as int);
    let (row, skip) = row_at_spec(doc, rd, app.top as int);
    lemma_offsets_increasing(doc, rd, row, row + 1);
    lemma_offsets_grow(doc, rd, row);
    lemma_plan_from_window(app, row, skip, app.view_height as int);
}

pub open spec fn plan_view(v: Seq<(usize, usize)>) -> Seq<(int, int)> {
    v.map_values(|p: (usize, usize)| (p.0 as int, p.1 as int))
}

/// Which line of which row goes on each line of the body, top to bottom.
pub fn body_plan(app: &App) -> (plan: Vec<(usize, usize)>)
    requires
        app.inv(),
    ensures
        plan_view(plan@) == body_plan_spec(*app),
{
    let n = app.doc.rows.len();
    let vh = app.view_height;
    let (row0, skip0) = app.row_at(app.top);
    let mut row = row0;
    let mut skip = skip0;
    let mut lines: Vec<(usize, usize)> = Vec::new();
    while lines.len() < vh && row < n
        invariant
            app.inv(),
            n == app.doc.rows@.len(),
            vh == app.view_height,
            lines@.len() <= vh,
            plan_view(lines@) + plan_from(*app, row as int, skip as int, vh - lines@.len())
                == plan_from(*app, row0 as int, skip0 as int, vh as int),
        decreases n - row,
    {
        let ghost before = plan_view(lines@);
        let ghost room = vh - lines@.len();
        assert(app.doc@.rows[row as int] == row_view(app.doc.rows@[row as int]));
        let h = app.row_height(app.doc.rows[row].as_slice());
        let ghost avail = if h > skip {
            h - skip
        } else {
            0
        };
        let ghost k = if avail < room {
            avail
        } else {
            room
        };
        let mut l = skip;
        while l < h && lines.len() < vh
            invariant
                skip <= l,
                l <= if h > skip {
                    h
                } else {
                    skip
                },
                avail == if h > skip {
                    h - skip
                } else {
                    0
                },
                k == if avail < room {
                    avail
                } else {
                    room
                },
                lines@.len() <= vh,
                lines@.len() - before.len() == l - skip,
                before.len() + room == vh,
                plan_view(lines@) == before + Seq::new((l - skip) as nat, |j: int| (row as int, skip + j)),
            decreases h - l,
        {
            let ghost b = lines@;
            lines.push((row, l));
            proof {
                lemma_map_push(b, (row, l), |p: (usize, usize)| (p.0 as int, p.1 as int));
                assert(plan_view(lines@) =~= before + Seq::new(
                    (l + 1 - skip) as nat,
                    |j: int| (row as int, skip + j),
                ));
            }
            l += 1;
        }
        proof {
            assert(l - skip == k);
            assert(plan_from(*app, row as int, skip as int, room) == Seq::new(
                k as nat,
                |j: int| (row as int, skip + j),
            ) + plan_from(*app, row + 1, 0, room - k));
            assert(plan_view(lines@) + plan_from(*app, row + 1, 0, vh - lines@.len()) =~= before
                + plan_from(*app, row as int, skip as int, room));
        }
        skip = 0;
        row += 1;
    }
    proof {
        assert(plan_from(*app, row as int, skip as int, vh - lines@.len()) =~= Seq::<
            (int, int),
        >::empty());
        assert(plan_view(lines@) =~= plan_from(*app, row0 as int, skip0 as int, vh as int));
    }
    lines
}

} // verus!

verus! {

/// Append the characters `c`.
fn push_chars(out: &mut String, c: &[char])
    ensures
        final(out)@ == old(out)@ + c@,
{
    let mut k: usize = 0;
    while k < c.len()
        invariant
            k <= c@.len(),
            out@ == old(out)@ + c@.take(k as int),
        decreases c@.len() - k,
    {
        push_char(out, c[k]);
        k += 1;
        assert(out@ =~= old(out)@ + c@.take(k as int));
    }
    assert(c@.take(c@.len() as int) =~= c@);
}

/// Where the screen stands across: the display column at its left edge,
/// counted from one, and the name of the table column found there if any.
pub open spec fn column_label_spec(app: App) -> Seq<char> {
    let col = crate::scalars::nat_text(cap(app.left + 1) as nat);
    match crate::app::column_at_spec(app.widths_now(), app.left as int) {
        Some(i) => seq!['c', 'o', 'l', ' '] + col + seq![' '] + app.doc@.columns[i].name,
        None => seq!['c', 'o', 'l', ' '] + col,
    }
}

/// The key hint for the readable forms: none when no column has one, else
/// what `x` would do next.
pub open spec fn hint_spec(app: App) -> Seq<char> {
    let doc = app.doc@;
    if !(exists|i: int|
        0 <= i < doc.columns.len() && (doc.columns[i].kind == DataKind::Json || doc.columns[i].kind
            == DataKind::Bytes)) {
        seq![]
    } else if exists|i: int| 0 <= i < app.readable@.len() && app.readable@[i] {
        seq!['x', ':', 'f', 'o', 'l', 'd', ' ', ' ']
    } else {
        seq!['x', ':', 'j', 's', 'o', 'n', ' ', ' ']
    }
}

/// How far down the table the bottom of the screen is, in percent of the
/// rows, rounded down; 100 once the last row shows.
pub open spec fn percent_spec(last: int, total: int) -> int {
    if last == total {
        100
    } else {
        cap(last * 100) / total
    }
}

/// The percentage is how far down the bottom row is: the share of rows at
/// or above it, rounded down, 100 once it is the last row; it never falls as
/// the bottom row moves down the table.
pub proof fn law_percent_grows_down_the_table(last1: int, last2: int, total: int)
    requires
        0 <= last1 <= last2 <= total,
        0 < total,
    ensures
        0 <= percent_spec(last1, total) <= 100,
        percent_spec(last1, total) <= percent_spec(last2, total),
        percent_spec(total, total) == 100,
        last1 < total && last1 * 100 <= usize::MAX ==> percent_spec(last1, total) * total
            <= last1 * 100 < (percent_spec(last1, total) + 1) * total,
{
    let c1 = cap(last1 * 100);
    let c2 = cap(last2 * 100);
    assert(0 <= c1 <= c2);
    assert(c1 <= last1 * 100);
    assert(0 <= c1 / total <= c2 / total) by (nonlinear_arith)
        requires
            0 <= c1 <= c2,
            total > 0,
    ;
    if last1 < total {
        assert(c1 / total < 100) by (nonlinear_arith)
            requires
                0 <= c1 <= last1 * 100,
                last1 < total,
                total > 0,
        ;
    }
    if last2 < total {
        assert(c2 / total < 100) by (nonlinear_arith)
            requires
                0 <= c2 <= last2 * 100,
                last2 < total,
                total > 0,
        ;
    }
    if last1 < total && last1 * 100 <= usize::MAX {
        assert(c1 == last1 * 100);
        assert((c1 / total) * total <= c1 < (c1 / total + 1) * total) by (nonlinear_arith)
            requires
                c1 >= 0,
                total > 0,
        ;
    }
}

/// The first and last rows on screen, counted from one; both 0 for a table
/// without rows.
pub open spec fn shown_rows_spec(app: App) -> (int, int) {
    let doc = app.doc@;
    let bottom = cap(app.top + app.view_height);
    let last_line = if bottom > 0 {
        bottom - 1
    } else {
        0
    };
    if doc.rows.len() == 0 {
        (0, 0)
    } else {
        (
            row_at_spec(doc, app.readable@, app.top as int).0 + 1,
            row_at_spec(doc, app.readable@, last_line).0 + 1,
        )
    }
}

/// The status line: which rows are on screen out of how many, the column at
/// the left edge (by name when there is one), how far down the screen is,
/// and the keys.
pub open spec fn status_spec(app: App) -> Seq<char> {
    let total = app.doc@.rows.len() as int;
    let (first, last) = shown_rows_spec(app);
    seq![' '] + crate::scalars::nat_text(first as nat) + seq!['-'] + crate::scalars::nat_text(
        last as nat,
    ) + seq!['/'] + crate::scalars::nat_text(total as nat) + seq![
        ' ',
        'r',
        'o',
        'w',
        's',
        ' ',
        ' ',
    ] + column_label_spec(app) + seq![' ', ' '] + crate::scalars::nat_text(
        percent_spec(last, total) as nat,
    ) + seq!['%', ' ', ' '] + hint_spec(app) + seq!['q', ':', 'q', 'u', 'i', 't', ' ']
}

/// The column part of the status line.
fn column_label(app: &App) -> (s: String)
    requires
        app.inv(),
    ensures
        s@ == column_label_spec(*app),
{
    let mut column = String::new();
    push_chars(&mut column, &['c', 'o', 'l', ' ']);
    let col = crate::scalars::usize_to_string(app.left.saturating_add(1));
    column.append(col.as_str());
    // In a wide table the column name is more use than the column number.
    match app.column_at(app.left) {
        Some(c) => {
            push_char(&mut column, ' ');
            column.append(c.name.as_str());
            proof {
                let ws = app.widths_now();
                assert(ws.len() == app.doc.columns@.len()) by {
                    assert(ws == crate::app::int_view(app.widths@));
                }
                crate::app::lemma_column_at_found(ws, app.left as int);
                let i = crate::app::column_at_spec(ws, app.left as int)->0;
                assert(0 <= i < ws.len());
                assert(app.doc@.columns[i].name == app.doc.columns@[i].name@);
            }
        },
        None => {},
    }
    assert(column@ =~= column_label_spec(*app));
    column
}

/// The key hint part of the status line.
fn hint(app: &App) -> (s: String)
    requires
        app.inv(),
    ensures
        s@ == hint_spec(*app),
{
    let mut any = false;
    let mut i: usize = 0;
    while i < app.readable.len()
        invariant
            i <= app.readable@.len(),
            any == exists|j: int| 0 <= j < i && app.readable@[j],
        decreases app.readable@.len() - i,
    {
        if app.readable[i] {
            any = true;
        }
        i += 1;
    }
    let has_any = app.has_readable();
    proof {
        assert forall|i: int| 0 <= i < app.doc.columns@.len() implies app.doc@.columns[i].kind
            == app.doc.columns@[i].kind by {}
    }
    let mut text = String::new();
    if !has_any {
    } else if any {
        push_chars(&mut text, &['x', ':', 'f', 'o', 'l', 'd', ' ', ' ']);
    } else {
        push_chars(&mut text, &['x', ':', 'j', 's', 'o', 'n', ' ', ' ']);
    }
    assert(text@ =~= hint_spec(*app));
    text
}

/// The text of the status line.
pub fn status_text(app: &App) -> (s: String)
    requires
        app.inv(),
    ensures
        s@ == status_spec(*app),
{
    let total = app.doc.rows.len();
    let last_line = app.top.saturating_add(app.view_height).saturating_sub(1);
    let (first, last) = if total == 0 {
        (0, 0)
    } else {
        (app.row_at(app.top).0 + 1, app.row_at(last_line).0 + 1)
    };
    assert((first as int, last as int) == shown_rows_spec(*app));
    let percent = if last == total {
        100
    } else {
        let scaled: usize = if last > usize::MAX / 100 {
            usize::MAX
        } else {
            last * 100
        };
        scaled / total
    };
    assert(percent == percent_spec(last as int, total as int)) by (nonlinear_arith)
        requires
            total > 0 || last == total,
            last != total ==> percent == (if last > usize::MAX / 100 {
                usize::MAX as int
            } else {
                last * 100
            }) / (total as int),
            last == total ==> percent == 100,
    ;
    let column = column_label(app);
    let hint = hint(app);

    let mut text = String::new();
    push_char(&mut text, ' ');
    text.append(crate::scalars::usize_to_string(first).as_str());
    push_char(&mut text, '-');
    text.append(crate::scalars::usize_to_string(last).as_str());
    push_char(&mut text, '/');
    text.append(crate::scalars::usize_to_string(total).as_str());
    push_chars(&mut text, &[' ', 'r', 'o', 'w', 's', ' ', ' ']);
    text.append(column.as_str());
    push_chars(&mut text, &[' ', ' ']);
    text.append(crate::scalars::usize_to_string(percent).as_str());
    push_chars(&mut text, &['%', ' ', ' ']);
    text.append(hint.as_str());
    push_chars(&mut text, &['q', ':', 'q', 'u', 'i', 't', ' ']);
    assert(app.doc@.rows.len() == total);
    assert(text@ =~= status_spec(*app));
    text
}

} // verus!
