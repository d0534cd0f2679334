//! JSON cells, laid out by colored_json.
//!
//! The plain form — which is what column widths and row heights are measured
//! from — comes from the same formatter as the coloured one that is drawn:
//! with its escapes taken out, the coloured text is the plain text, so the
//! two always have the same line breaks.

use vstd::prelude::*;

use crate::input::{lemma_map_push, split_lines, strip_cr};
use crate::scalars::{
    json_compact, json_compact_text, json_pretty, json_pretty_text, strip_escapes,
};
use crate::width::{cap, width_of, width_of_chars};

verus! {

/// How a JSON cell is written out: on one line, or indented over several.
#[derive(Debug, Clone, Copy, PartialEq, Eq, Structural)]
pub enum Layout {
    Compact,
    Pretty,
}

/// What colored_json writes, colour off, for the JSON value whose text is
/// `value`; `None` if it is not JSON.
pub open spec fn written_spec(value: Seq<char>, layout: Layout) -> Option<Seq<char>> {
    match layout {
        Layout::Compact => json_compact_text(value),
        Layout::Pretty => json_pretty_text(value),
    }
}

/// The uncoloured text of the JSON value whose text is `value`. Should the
/// formatter fail, the text as given stands in.
pub open spec fn plain_spec(value: Seq<char>, layout: Layout) -> Seq<char> {
    match written_spec(value, layout) {
        Some(p) => p,
        None => value,
    }
}

fn format(value: &str, layout: Layout, color: bool) -> (s: String)
    ensures
        !color ==> s@ == plain_spec(value@, layout),
        color ==> match written_spec(value@, layout) {
            Some(p) => strip_escapes(s@) == p,
            None => s@ == value@,
        },
{
    let written = match layout {
        Layout::Compact => json_compact(value, color),
        Layout::Pretty => json_pretty(value, color),
    };
    match written {
        Some(p) => p,
        None => String::from_str(value),
    }
}

/// The uncoloured text, for measuring. `value` is the JSON value as the
/// library holds it: its compact text.
pub fn plain(value: &str, layout: Layout) -> (s: String)
    ensures
        s@ == plain_spec(value@, layout),
{
    format(value, layout, false)
}

/// The same text with colours, as ANSI escapes, for drawing. It comes from
/// the formatter `plain` comes from, with colour on: with its escapes taken
/// out it is the plain text, so the two have the same lines.
pub fn colored(value: &str, layout: Layout) -> (s: String)
    ensures
        match written_spec(value@, layout) {
            Some(p) => strip_escapes(s@) == p,
            None => s@ == value@,
        },
        written_spec(value@, layout) is Some ==> strip_escapes(s@) == plain_spec(value@, layout),
{
    format(value, layout, true)
}

/// The lines of `s` as `str::lines` gives them: cut at each `\n`, a `\r`
/// before the `\n` dropped, and no empty line after a final `\n`.
pub open spec fn text_lines(s: Seq<char>) -> Seq<Seq<char>> {
    let p = split_lines(s);
    if s.len() == 0 || s.last() == '\n' {
        p.drop_last().map_values(|l: Seq<char>| strip_cr(l))
    } else {
        p.drop_last().map_values(|l: Seq<char>| strip_cr(l)).push(p.last())
    }
}

/// The widest of `lines`, 0 if there are none.
pub open spec fn widest(lines: Seq<Seq<char>>) -> int
    decreases lines.len(),
{
    if lines.len() == 0 {
        0
    } else {
        let w = cap(width_of(lines.last()) as int);
        let m = widest(lines.drop_last());
        if w > m {
            w
        } else {
            m
        }
    }
}

/// Lines the text needs (at least one), and how wide the widest of them is.
pub open spec fn measure_text(s: Seq<char>) -> (int, int) {
    let lines = text_lines(s);
    (if lines.len() > 1 {
        lines.len() as int
    } else {
        1
    }, widest(lines))
}

pub open spec fn measure_spec(value: Seq<char>, layout: Layout) -> (int, int) {
    measure_text(plain_spec(value, layout))
}

pub open spec fn chars_lines_view(v: Seq<Vec<char>>) -> Seq<Seq<char>> {
    v.map_values(|l: Vec<char>| l@)
}

/// `str::lines`, over characters.
fn text_lines_exec(s: &[char]) -> (lines: Vec<Vec<char>>)
    ensures
        chars_lines_view(lines@) == text_lines(s@),
{
    let mut lines: Vec<Vec<char>> = Vec::new();
    let mut cur: Vec<char> = Vec::new();
    let mut i: usize = 0;
    while i < s.len()
        invariant
            i <= s@.len(),
            split_lines(s@.take(i as int)).len() >= 1,
            chars_lines_view(lines@) == split_lines(s@.take(i as int)).drop_last().map_values(
                |l: Seq<char>| strip_cr(l),
            ),
            cur@ == split_lines(s@.take(i as int)).last(),
        decreases s@.len() - i,
    {
        let ghost prev = split_lines(s@.take(i as int));
        assert(s@.take(i + 1).drop_last() =~= s@.take(i as int));
        let c = s[i];
        let ghost old_lines = lines@;
        if c == '\n' {
            let mut done = cur;
            if done.len() > 0 && done[done.len() - 1] == '\r' {
                done.pop();
            }
            assert(done@ == strip_cr(prev.last()));
            lines.push(done);
            cur = Vec::new();
            proof {
                let next = split_lines(s@.take(i + 1));
                let g = |l: Seq<char>| strip_cr(l);
                assert(next == prev.push(seq![]));
                assert(next.drop_last() =~= prev);
                lemma_map_push(old_lines, lines@.last(), |l: Vec<char>| l@);
                assert(prev =~= prev.drop_last().push(prev.last()));
                lemma_map_push(prev.drop_last(), prev.last(), g);
                assert(chars_lines_view(lines@) == next.drop_last().map_values(g));
                assert(cur@ =~= next.last());
            }
        } else {
            cur.push(c);
            proof {
                let next = split_lines(s@.take(i + 1));
                assert(next.drop_last() =~= prev.drop_last());
            }
        }
        i += 1;
    }
    assert(s@.take(s@.len() as int) =~= s@);
    proof {
        let p = split_lines(s@);
        if s@.len() > 0 {
            assert(s@.take(s@.len() - 1) =~= s@.drop_last());
        }
    }
    if s.len() == 0 || s[s.len() - 1] == '\n' {
        proof {
            if s@.len() > 0 {
                let p = split_lines(s@);
                assert(p == split_lines(s@.drop_last()).push(seq![]));
            }
        }
    } else {
        let ghost old_lines = lines@;
        lines.push(cur);
        proof {
            lemma_map_push(old_lines, lines@.last(), |l: Vec<char>| l@);
        }
    }
    lines
}

/// Lines the value needs, and how wide the widest of them is.
pub fn measure(value: &str, layout: Layout) -> (m: (usize, usize))
    ensures
        m.0 as int == measure_spec(value@, layout).0,
        m.1 as int == measure_spec(value@, layout).1,
{
    let text = plain(value, layout);
    let chars = crate::chars::chars_of(text.as_str());
    let lines = text_lines_exec(chars.as_slice());
    let ghost lv = chars_lines_view(lines@);
    let mut widest_so_far: usize = 0;
    let mut k: usize = 0;
    while k < lines.len()
        invariant
            k <= lines@.len(),
            lv == chars_lines_view(lines@),
            widest_so_far as int == widest(lv.take(k as int)),
        decreases lines@.len() - k,
    {
        assert(lv.take(k + 1).drop_last() =~= lv.take(k as int));
        let w = width_of_chars(lines[k].as_slice());
        if w > widest_so_far {
            widest_so_far = w;
        }
        k += 1;
    }
    assert(lv.take(lines@.len() as int) =~= lv);
    let count = if lines.len() > 1 {
        lines.len()
    } else {
        1
    };
    (count, widest_so_far)
}

} // verus!
