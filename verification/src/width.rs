//! Display widths: how many terminal columns text takes, and cutting text to
//! a range of columns.

use vstd::prelude::*;

use crate::chars::{push_char, spec_is_control};

verus! {

/// The columns unicode-width gives a character.
pub uninterp spec fn char_columns(c: char) -> nat;

/// `UnicodeWidthChar::width` of unicode-width, with `None` (a control
/// character) read as no columns, as every caller in this crate reads it.
///
/// Claims: the result is `char_columns(c)`; it is at most 3 (the tables keep
/// two bits a character, and the one exception, U+17D8, is 3); printable
/// ASCII takes one column; control characters take none. The tables
/// themselves are not restated.
#[verifier::external_body]
pub(crate) fn char_width(c: char) -> (w: usize)
    ensures
        w == char_columns(c),
        w <= 3,
        0x20 <= (c as u32) < 0x7F ==> w == 1,
        spec_is_control(c) ==> w == 0,
{
    unicode_width::UnicodeWidthChar::width(c).unwrap_or(0)
}

/// `x`, or `usize::MAX` if it does not fit.
pub open spec fn cap(x: int) -> int {
    if x <= usize::MAX as int {
        x
    } else {
        usize::MAX as int
    }
}

/// The display width of `s`: the columns of its characters, added up.
pub open spec fn width_of(s: Seq<char>) -> nat
    decreases s.len(),
{
    if s.len() == 0 {
        0
    } else {
        width_of(s.drop_last()) + char_columns(s.last())
    }
}

/// `n` spaces.
pub open spec fn spaces(n: int) -> Seq<char> {
    Seq::new(n as nat, |i: int| ' ')
}

/// Two texts together are as wide as the two apart.
pub proof fn lemma_width_concat(x: Seq<char>, y: Seq<char>)
    ensures
        width_of(x + y) == width_of(x) + width_of(y),
    decreases y.len(),
{
    if y.len() == 0 {
        assert(x + y =~= x);
    } else {
        lemma_width_concat(x, y.drop_last());
        assert((x + y).drop_last() =~= x + y.drop_last());
    }
}

pub proof fn lemma_width_push(x: Seq<char>, c: char)
    ensures
        width_of(x.push(c)) == width_of(x) + char_columns(c),
{
    assert(x.push(c).drop_last() =~= x);
}

pub proof fn lemma_width_take_step(s: Seq<char>, i: int)
    requires
        0 <= i < s.len(),
    ensures
        width_of(s.take(i + 1)) == width_of(s.take(i)) + char_columns(s[i]),
{
    assert(s.take(i + 1) =~= s.take(i).push(s[i]));
    lemma_width_push(s.take(i), s[i]);
}

pub proof fn lemma_width_take_mono(s: Seq<char>, i: int, j: int)
    requires
        0 <= i <= j <= s.len(),
    ensures
        width_of(s.take(i)) <= width_of(s.take(j)),
    decreases j - i,
{
    if i < j {
        lemma_width_take_mono(s, i, j - 1);
        lemma_width_take_step(s, j - 1);
    }
}

pub proof fn lemma_width_spaces(n: int)
    requires
        n >= 0,
        char_columns(' ') == 1,
    ensures
        width_of(spaces(n)) == n,
    decreases n,
{
    if n > 0 {
        lemma_width_spaces(n - 1);
        assert(spaces(n).drop_last() =~= spaces(n - 1));
    }
}

/// Display width of a sequence of characters, stopping at `usize::MAX`.
/// (It never gets there: no character is wider than its UTF-8 encoding.)
pub fn width_of_chars(s: &[char]) -> (w: usize)
    ensures
        w == cap(width_of(s@) as int),
{
    let mut w: usize = 0;
    let mut i: usize = 0;
    while i < s.len()
        invariant
            i <= s@.len(),
            w == cap(width_of(s@.take(i as int)) as int),
        decreases s@.len() - i,
    {
        proof {
            lemma_width_take_step(s@, i as int);
        }
        w = w.saturating_add(char_width(s[i]));
        i += 1;
    }
    assert(s@.take(s@.len() as int) =~= s@);
    w
}

/// Display width of `s`: the columns unicode-width gives its characters,
/// added up (at most `usize::MAX`).
pub fn display_width(s: &str) -> (w: usize)
    ensures
        w == cap(width_of(s@) as int),
{
    let mut w: usize = 0;
    for c in it: s.chars()
        invariant
            it.seq() == s@,
            w == cap(width_of(it.seq().take(it.index() as int)) as int),
    {
        proof {
            lemma_width_take_step(s@, it.index() as int);
        }
        w = w.saturating_add(char_width(c));
    }
    assert(s@.take(s@.len() as int) =~= s@);
    w
}

/// Append `n` spaces.
pub(crate) fn push_spaces(out: &mut String, n: usize)
    ensures
        final(out)@ == old(out)@ + spaces(n as int),
{
    let mut k: usize = 0;
    while k < n
        invariant
            k <= n,
            out@ == old(out)@ + spaces(k as int),
        decreases n - k,
    {
        push_char(out, ' ');
        k += 1;
        assert(old(out)@ + spaces(k as int) =~= (old(out)@ + spaces(k - 1)).push(' '));
    }
}

/// What character `i` of `s` contributes to the columns `[start, start + max)`
/// of `s`: nothing if it lies outside them, itself if it lies inside, and one
/// space for each column it covers if it straddles an edge.
pub open spec fn slice_piece(s: Seq<char>, i: int, start: int, max: int) -> Seq<char> {
    let a = width_of(s.take(i)) as int;
    let b = a + char_columns(s[i]);
    let stop = start + max;
    if b <= start {
        seq![]
    } else if a < start {
        spaces(if b < stop { b } else { stop } - start)
    } else if a >= stop {
        seq![]
    } else if b > stop {
        spaces(stop - a)
    } else {
        seq![s[i]]
    }
}

/// The slice of `s` covering display columns `[start, start + max)`.
pub open spec fn slice_spec(s: Seq<char>, start: int, max: int) -> Seq<char>
    decreases s.len(),
{
    if s.len() == 0 {
        seq![]
    } else {
        slice_spec(s.drop_last(), start, max) + slice_piece(s, s.len() - 1, start, max)
    }
}

proof fn lemma_slice_take_step(s: Seq<char>, i: int, start: int, max: int)
    requires
        0 <= i < s.len(),
    ensures
        slice_spec(s.take(i + 1), start, max) == slice_spec(s.take(i), start, max) + slice_piece(
            s,
            i,
            start,
            max,
        ),
{
    let t = s.take(i + 1);
    assert(t.drop_last() =~= s.take(i));
    assert(t.take(i) =~= s.take(i));
}

/// Once a character starts at or past the window's right edge, nothing
/// after it shows.
proof fn lemma_slice_rest_empty(s: Seq<char>, i: int, start: int, max: int)
    requires
        0 <= i <= s.len(),
        max > 0,
        width_of(s.take(i)) >= start + max,
    ensures
        slice_spec(s, start, max) == slice_spec(s.take(i), start, max),
    decreases s.len() - i,
{
    if i < s.len() {
        lemma_width_take_mono(s, i, i + 1);
        lemma_slice_rest_empty(s, i + 1, start, max);
        lemma_slice_take_step(s, i, start, max);
        assert(slice_piece(s, i, start, max) =~= seq![]);
    } else {
        assert(s.take(i) =~= s);
    }
}

/// Take the slice of `s` covering display columns `[start, start + max)`.
///
/// Wide characters straddling either edge are replaced by spaces so the
/// result always occupies exactly the columns it claims to: it is as wide as
/// the part of the window that `s` reaches into.
pub fn slice_columns(s: &str, start: usize, max: usize) -> (out: String)
    ensures
        width_of(s@) <= usize::MAX ==> out@ == slice_spec(s@, start as int, max as int),
        width_of(s@) <= usize::MAX ==> width_of(out@) == if width_of(s@) <= start {
            0
        } else if width_of(s@) - start < max {
            width_of(s@) - start
        } else {
            max as int
        },
{
    let mut out = String::new();
    let ghost fits = width_of(s@) <= usize::MAX;
    let ghost stop = start + max;

    if max == 0 {
        proof {
            if fits {
                lemma_slice_zero(s@, start as int);
            }
        }
        return out;
    }
    let space = char_width(' ');
    let chars = crate::chars::chars_of(s);
    let n = chars.len();
    let mut col: usize = 0;  // display column of the next input char
    let mut used: usize = 0;  // display columns already emitted
    let mut i: usize = 0;

    while i < n && used < max
        invariant
            chars@ == s@,
            n == s@.len(),
            i <= n,
            max > 0,
            stop == start + max,
            char_columns(' ') == 1,
            fits == (width_of(s@) <= usize::MAX),
            fits ==> col == width_of(s@.take(i as int)),
            fits ==> out@ == slice_spec(s@.take(i as int), start as int, max as int),
            fits ==> used == if col <= start {
                0
            } else if col - start < max {
                col - start
            } else {
                max as int
            },
            fits ==> width_of(out@) == used,
        decreases n - i,
    {
        let ch = chars[i];
        let w = char_width(ch);
        let end = col.saturating_add(w);
        let ghost old_out = out@;
        proof {
            if fits {
                lemma_width_take_step(s@, i as int);
                lemma_width_take_mono(s@, i + 1, n as int);
                lemma_slice_take_step(s@, i as int, start as int, max as int);
                assert(s@.take(n as int) =~= s@);
            }
        }
        if end <= start {
            col = end;
            proof {
                if fits {
                    assert(slice_piece(s@, i as int, start as int, max as int) =~= seq![]);
                    assert(out@ =~= old_out + seq![]);
                }
            }
        } else {
            if col < start {
                // Straddles the left edge: emit spaces for the visible half.
                let visible = if end - start < max - used {
                    end - start
                } else {
                    max - used
                };
                push_spaces(&mut out, visible);
                used += visible;
                proof {
                    if fits {
                        lemma_width_spaces(visible as int);
                        lemma_width_concat(old_out, spaces(visible as int));
                    }
                }
            } else if w > max - used {
                // Straddles the right edge: pad and stop.
                let pad = max - used;
                push_spaces(&mut out, pad);
                used = max;
                proof {
                    if fits {
                        lemma_width_spaces(pad as int);
                        lemma_width_concat(old_out, spaces(pad as int));
                    }
                }
            } else {
                push_char(&mut out, ch);
                used += w;
                proof {
                    if fits {
                        lemma_width_push(old_out, ch);
                        assert(out@ =~= old_out + seq![ch]);
                    }
                }
            }
            col = end;
        }
        i += 1;
    }
    proof {
        if fits {
            if i < n {
                lemma_slice_rest_empty(s@, i as int, start as int, max as int);
            } else {
                assert(s@.take(n as int) =~= s@);
            }
            if i < n {
                lemma_width_take_mono(s@, i as int, n as int);
                assert(s@.take(n as int) =~= s@);
            }
        }
    }
    out
}

/// How many of the columns `[start, start + max)` a text `w` columns wide
/// reaches into.
pub open spec fn reach(w: int, start: int, max: int) -> int {
    if w <= start {
        0
    } else if w - start < max {
        w - start
    } else {
        max
    }
}

/// The slice is as wide as the part of the window the text reaches into.
pub(crate) proof fn lemma_slice_width(s: Seq<char>, start: int, max: int)
    requires
        char_columns(' ') == 1,
        start >= 0,
        max >= 0,
    ensures
        width_of(slice_spec(s, start, max)) == reach(width_of(s) as int, start, max),
    decreases s.len(),
{
    if s.len() > 0 {
        let p = s.drop_last();
        let c = s.last();
        lemma_slice_width(p, start, max);
        assert(s =~= p.push(c));
        lemma_width_push(p, c);
        let piece = slice_piece(s, s.len() - 1, start, max);
        assert(s.take(s.len() - 1) =~= p);
        lemma_width_concat(slice_spec(p, start, max), piece);
        let a = width_of(p) as int;
        let b = a + char_columns(c);
        let stop = start + max;
        if b <= start {
        } else if a < start {
            lemma_width_spaces(if b < stop { b } else { stop } - start);
        } else if a >= stop {
        } else if b > stop {
            lemma_width_spaces(stop - a);
        } else {
            lemma_width_push(seq![], c);
            assert(seq![c] =~= Seq::<char>::empty().push(c));
        }
    }
}

/// Text of one-column characters is as wide as it is long.
pub(crate) proof fn lemma_width_one_each(s: Seq<char>)
    requires
        forall|i: int| 0 <= i < s.len() ==> char_columns(#[trigger] s[i]) == 1,
    ensures
        width_of(s) == s.len(),
    decreases s.len(),
{
    if s.len() > 0 {
        let p = s.drop_last();
        assert forall|i: int| 0 <= i < p.len() implies char_columns(#[trigger] p[i]) == 1 by {
            assert(p[i] == s[i]);
        }
        lemma_width_one_each(p);
        assert(char_columns(s[s.len() - 1]) == 1);
    }
}

/// In text of one-column characters, the slice of columns
/// `[start, start + max)` is simply those characters.
pub proof fn law_slice_of_narrow_text(s: Seq<char>, start: int, max: int)
    requires
        start >= 0,
        max >= 0,
        forall|i: int| 0 <= i < s.len() ==> char_columns(#[trigger] s[i]) == 1,
    ensures
        slice_spec(s, start, max) == s.subrange(
            if start < s.len() {
                start
            } else {
                s.len() as int
            },
            if start + max < s.len() {
                start + max
            } else {
                s.len() as int
            },
        ),
    decreases s.len(),
{
    if s.len() > 0 {
        let p = s.drop_last();
        assert forall|i: int| 0 <= i < p.len() implies char_columns(#[trigger] p[i]) == 1 by {
            assert(p[i] == s[i]);
        }
        law_slice_of_narrow_text(p, start, max);
        assert(s.take(s.len() - 1) =~= p);
        lemma_width_one_each(p);
        assert(char_columns(s[s.len() - 1]) == 1);
        let n = s.len() as int;
        let lo = if start < n { start } else { n };
        let hi = if start + max < n { start + max } else { n };
        let plo = if start < n - 1 { start } else { n - 1 };
        let phi = if start + max < n - 1 { start + max } else { n - 1 };
        if start <= n - 1 && n - 1 < start + max {
            assert(s.subrange(lo, hi) =~= p.subrange(plo, phi).push(s[n - 1]));
            assert(seq![s[n - 1]] + Seq::<char>::empty() =~= seq![s[n - 1]]);
            assert(p.subrange(plo, phi) + seq![s[n - 1]] =~= p.subrange(plo, phi).push(s[n - 1]));
        } else {
            assert(s.subrange(lo, hi) =~= p.subrange(plo, phi));
            assert(p.subrange(plo, phi) + Seq::<char>::empty() =~= p.subrange(plo, phi));
        }
    } else {
        assert(s.subrange(0, 0) =~= Seq::<char>::empty());
    }
}

proof fn lemma_slice_zero(s: Seq<char>, start: int)
    ensures
        slice_spec(s, start, 0) == Seq::<char>::empty(),
        width_of(slice_spec(s, start, 0)) == 0,
    decreases s.len(),
{
    if s.len() > 0 {
        lemma_slice_zero(s.drop_last(), start);
        let p = slice_piece(s, s.len() - 1, start, 0);
        assert(p =~= seq![]);
        assert(slice_spec(s, start, 0) =~= Seq::<char>::empty());
    }
}

/// Index of the first character of `s` that starts at or after display
/// column `col` (or `s.len()` if none does).
pub open spec fn is_column_index(s: Seq<char>, col: int, r: int) -> bool {
    &&& 0 <= r <= s.len()
    &&& r < s.len() ==> cap(width_of(s.take(r)) as int) >= col
    &&& forall|j: int| 0 <= j < r ==> cap(width_of(#[trigger] s.take(j)) as int) < col
}

/// Index of the first character at or after display column `col`.
pub fn column_index(s: &[char], col: usize) -> (r: usize)
    ensures
        is_column_index(s@, col as int, r as int),
{
    let mut at: usize = 0;
    let mut i: usize = 0;
    while i < s.len()
        invariant
            i <= s@.len(),
            at == cap(width_of(s@.take(i as int)) as int),
            forall|j: int| 0 <= j < i ==> cap(width_of(#[trigger] s@.take(j)) as int) < col,
        decreases s@.len() - i,
    {
        if at >= col {
            return i;
        }
        proof {
            lemma_width_take_step(s@, i as int);
        }
        at = at.saturating_add(char_width(s[i]));
        i += 1;
    }
    i
}

} // verus!
