//! The outside parsers and printers a cell goes through: std's integers,
//! rust_decimal, uuid, chrono, serde_json and md5.
//!
//! A value of one of those crates is held by this library in its canonical
//! text: the text the crate itself writes the value out as. Each parser here
//! therefore hands back that text, so the value never has to leave the call.

use vstd::prelude::*;

verus! {

pub open spec fn is_digit(c: char) -> bool {
    '0' <= c <= '9'
}

/// The value of a run of decimal digits.
pub open spec fn digits_value(s: Seq<char>) -> int
    decreases s.len(),
{
    if s.len() == 0 {
        0
    } else {
        digits_value(s.drop_last()) * 10 + (s.last() as int - '0' as int)
    }
}

/// What std's `FromStr` for integers accepts: an optional `+` or `-`, then
/// one or more ASCII digits and nothing else. (Whether the value fits the
/// type is checked separately.)
pub open spec fn int_literal_value(s: Seq<char>) -> Option<int> {
    let signed = s.len() > 0 && (s[0] == '-' || s[0] == '+');
    let body = if signed {
        s.drop_first()
    } else {
        s
    };
    if body.len() > 0 && (forall|i: int| 0 <= i < body.len() ==> is_digit(#[trigger] body[i])) {
        Some(
            if signed && s[0] == '-' {
                -digits_value(body)
            } else {
                digits_value(body)
            },
        )
    } else {
        None
    }
}

/// The ASCII digit for `d` in `0..16`, lowercase.
pub open spec fn hex_digit(d: int) -> char {
    if d < 10 {
        (('0' as int) + d) as char
    } else {
        (('a' as int) + d - 10) as char
    }
}

/// `n` in decimal, as std's `Display` writes an unsigned integer.
pub open spec fn nat_text(n: nat) -> Seq<char>
    decreases n,
{
    if n < 10 {
        seq![hex_digit(n as int)]
    } else {
        nat_text(n / 10).push(hex_digit((n % 10) as int))
    }
}

/// `i` in decimal, with a `-` in front if it is negative.
pub open spec fn int_text(i: int) -> Seq<char> {
    if i < 0 {
        seq!['-'] + nat_text((-i) as nat)
    } else {
        nat_text(i as nat)
    }
}

/// `str::parse::<i64>`: `Some` exactly when the text is an integer literal
/// (see `int_literal_value`) whose value fits an `i64`.
#[verifier::external_body]
pub(crate) fn parse_i64(s: &str) -> (r: Option<i64>)
    ensures
        r == (match int_literal_value(s@) {
            Some(v) => if i64::MIN <= v <= i64::MAX {
                Some(v as i64)
            } else {
                None
            },
            None => None,
        }),
{
    s.parse::<i64>().ok()
}

/// The digit `d`, for `d` below ten.
fn digit_char(d: u64) -> (c: char)
    requires
        d < 10,
    ensures
        c == hex_digit(d as int),
{
    match d {
        0 => '0',
        1 => '1',
        2 => '2',
        3 => '3',
        4 => '4',
        5 => '5',
        6 => '6',
        7 => '7',
        8 => '8',
        _ => '9',
    }
}

/// `n` written in decimal onto the end of `out`.
fn push_decimal(out: &mut String, n: u64)
    ensures
        final(out)@ == old(out)@ + nat_text(n as nat),
    decreases n,
{
    if n >= 10 {
        push_decimal(out, n / 10);
    }
    crate::chars::push_char(out, digit_char(n % 10));
    proof {
        if n >= 10 {
            assert(old(out)@ + nat_text(n as nat) =~= old(out)@ + nat_text((n / 10) as nat) + seq![
                hex_digit((n % 10) as int),
            ]);
        } else {
            assert(n % 10 == n);
        }
    }
}

/// The number in decimal, `-` first when negative: what `i64`'s `to_string`
/// writes.
pub(crate) fn i64_to_string(i: i64) -> (s: String)
    ensures
        s@ == int_text(i as int),
{
    let mut s = String::new();
    if i < 0 {
        crate::chars::push_char(&mut s, '-');
        let magnitude: u64 = (-(i + 1)) as u64 + 1;
        push_decimal(&mut s, magnitude);
    } else {
        push_decimal(&mut s, i as u64);
    }
    s
}

/// The number in decimal: what `usize`'s `to_string` writes.
pub(crate) fn usize_to_string(n: usize) -> (s: String)
    ensures
        s@ == nat_text(n as nat),
{
    let mut s = String::new();
    push_decimal(&mut s, n as u64);
    s
}

/// The canonical text of the decimal that `Decimal::from_str_exact` reads
/// from `s`, if it reads one.
pub uninterp spec fn decimal_text(s: Seq<char>) -> Option<Seq<char>>;

/// `rust_decimal::Decimal::from_str_exact`, the decimal it reads written back
/// with `Decimal`'s `Display` (its canonical text). The claim is only that the
/// result is a function of `s`; rust_decimal's grammar and printing are not
/// restated.
#[verifier::external_body]
pub(crate) fn decimal_exact(s: &str) -> (r: Option<String>)
    ensures
        r.deep_view() == decimal_text(s@),
{
    rust_decimal::Decimal::from_str_exact(s).ok().map(|d| d.to_string())
}

/// The canonical text of the UUID that `Uuid::try_parse` reads from `s`.
pub uninterp spec fn uuid_text(s: Seq<char>) -> Option<Seq<char>>;

/// `uuid::Uuid::try_parse`, the UUID it reads written back with `Uuid`'s
/// `Display` (lowercase and hyphenated). Only the dependence on `s` is
/// claimed.
#[verifier::external_body]
pub(crate) fn uuid_parse(s: &str) -> (r: Option<String>)
    ensures
        r.deep_view() == uuid_text(s@),
{
    uuid::Uuid::try_parse(s).ok().map(|u| u.to_string())
}

/// The layout that dates are written in.
pub open spec fn date_layout() -> Seq<char> {
    "%Y-%m-%d"@
}

/// The layout that timestamps without a time zone are read and written in.
pub open spec fn timestamp_layout() -> Seq<char> {
    "%Y-%m-%d %H:%M:%S%.f"@
}

/// The layout that timestamps with a time zone are written in.
pub open spec fn timestamptz_layout() -> Seq<char> {
    "%Y-%m-%d %H:%M:%S%.f%:z"@
}

/// The text of the time that chrono's `DateTime::<FixedOffset>::parse_from_str`
/// reads from `s` with `pattern`, formatted with `layout`.
pub uninterp spec fn offset_datetime_text(s: Seq<char>, pattern: Seq<char>, layout: Seq<char>) -> Option<Seq<char>>;

/// `chrono::DateTime::<FixedOffset>::parse_from_str(s, pattern)`, the time it
/// reads written back with `format(layout)`. `format` panics when asked to
/// write a malformed layout, so the layout is pinned to the one the library
/// writes these times in. Only the dependence on the arguments is claimed.
#[verifier::external_body]
pub(crate) fn parse_offset_datetime(s: &str, pattern: &str, layout: &str) -> (r: Option<String>)
    requires
        layout@ == timestamptz_layout(),
    ensures
        r.deep_view() == offset_datetime_text(s@, pattern@, layout@),
{
    chrono::DateTime::parse_from_str(s, pattern).ok().map(|t| t.format(layout).to_string())
}

/// The text of the time that chrono's `NaiveDateTime::parse_from_str` reads
/// from `s` with `pattern`, formatted with `layout`.
pub uninterp spec fn naive_datetime_text(s: Seq<char>, pattern: Seq<char>, layout: Seq<char>) -> Option<Seq<char>>;

/// `chrono::NaiveDateTime::parse_from_str(s, pattern)`, the time it reads
/// written back with `format(layout)`; the layout is pinned as above. Only
/// the dependence on the arguments is claimed.
#[verifier::external_body]
pub(crate) fn parse_naive_datetime(s: &str, pattern: &str, layout: &str) -> (r: Option<String>)
    requires
        layout@ == timestamp_layout(),
    ensures
        r.deep_view() == naive_datetime_text(s@, pattern@, layout@),
{
    chrono::NaiveDateTime::parse_from_str(s, pattern).ok().map(|t| t.format(layout).to_string())
}

/// The text of the date that chrono's `NaiveDate::from_str` reads from `s`,
/// formatted with `layout`.
pub uninterp spec fn date_text(s: Seq<char>, layout: Seq<char>) -> Option<Seq<char>>;

/// `<chrono::NaiveDate as FromStr>::from_str(s)`, the date it reads written
/// back with `format(layout)`; the layout is pinned as above. Only the
/// dependence on the arguments is claimed.
#[verifier::external_body]
pub(crate) fn parse_date(s: &str, layout: &str) -> (r: Option<String>)
    requires
        layout@ == date_layout(),
    ensures
        r.deep_view() == date_text(s@, layout@),
{
    <chrono::NaiveDate as std::str::FromStr>::from_str(s).ok().map(|d| d.format(layout).to_string())
}

/// The compact text of the JSON value that serde_json reads from `s`.
pub uninterp spec fn json_text(s: Seq<char>) -> Option<Seq<char>>;

/// `serde_json::from_str::<serde_json::Value>(s)`, the value written back with
/// its `Display` (compact, keys in the order they came in). Only the
/// dependence on `s` is claimed.
#[verifier::external_body]
pub(crate) fn parse_json(s: &str) -> (r: Option<String>)
    ensures
        r.deep_view() == json_text(s@),
{
    serde_json::from_str::<serde_json::Value>(s).ok().map(|v| v.to_string())
}

/// What is left of `s` once every ANSI escape is taken out: each run from
/// an ESC up to and including the next `m` (the shape of every sequence
/// yansi writes, and the way yansi itself scans for them). `in_escape` says
/// whether such a run is open.
pub open spec fn strip_escapes_from(s: Seq<char>, in_escape: bool) -> Seq<char>
    decreases s.len(),
{
    if s.len() == 0 {
        seq![]
    } else {
        let c = s[0];
        let rest = s.drop_first();
        if in_escape {
            strip_escapes_from(rest, c != 'm')
        } else if c == '\x1B' {
            strip_escapes_from(rest, true)
        } else {
            seq![c] + strip_escapes_from(rest, false)
        }
    }
}

/// `s` with its ANSI escapes taken out.
pub open spec fn strip_escapes(s: Seq<char>) -> Seq<char> {
    strip_escapes_from(s, false)
}

/// The text colored_json's pretty formatter writes, colour off, for the
/// JSON value whose text is `s`.
pub uninterp spec fn json_pretty_text(s: Seq<char>) -> Option<Seq<char>>;

/// colored_json's `ColoredFormatter::new(PrettyFormatter::new())
/// .to_colored_json(value, mode)` on the value serde_json reads from `s`,
/// with `ColorMode::On` for `color` and `ColorMode::Off` otherwise; `None` if
/// `s` is not JSON or the formatter fails.
///
/// Colour off, the result is named. Colour on, whether escapes are written
/// at all rests on yansi's process-wide switch, so only what holds either
/// way is claimed: the formatter makes the same calls in the same order and
/// wraps each token's text in escapes, so the result is there exactly when
/// the uncoloured one is, and with its escapes taken out it is that text.
#[verifier::external_body]
pub(crate) fn json_pretty(s: &str, color: bool) -> (r: Option<String>)
    ensures
        !color ==> r.deep_view() == json_pretty_text(s@),
        color ==> (r is Some <==> json_pretty_text(s@) is Some),
        color && r is Some ==> strip_escapes(r->0@) == json_pretty_text(s@)->0,
{
    let mode = if color { colored_json::ColorMode::On } else { colored_json::ColorMode::Off };
    serde_json::from_str::<serde_json::Value>(s).ok().and_then(
        |v|
            colored_json::ColoredFormatter::new(colored_json::PrettyFormatter::new()).to_colored_json(
                &v,
                mode,
            ).ok(),
    )
}

/// The text colored_json's compact formatter writes, colour off, for the
/// JSON value whose text is `s`.
pub uninterp spec fn json_compact_text(s: Seq<char>) -> Option<Seq<char>>;

/// colored_json's `ColoredFormatter::new(CompactFormatter {})
/// .to_colored_json(value, mode)` on the value serde_json reads from `s`,
/// with `ColorMode::On` for `color` and `ColorMode::Off` otherwise; `None` if
/// `s` is not JSON or the formatter fails. Colour off, the result is named;
/// colour on, only what holds whatever yansi's switch says, as for
/// `json_pretty`.
#[verifier::external_body]
pub(crate) fn json_compact(s: &str, color: bool) -> (r: Option<String>)
    ensures
        !color ==> r.deep_view() == json_compact_text(s@),
        color ==> (r is Some <==> json_compact_text(s@) is Some),
        color && r is Some ==> strip_escapes(r->0@) == json_compact_text(s@)->0,
{
    let mode = if color { colored_json::ColorMode::On } else { colored_json::ColorMode::Off };
    serde_json::from_str::<serde_json::Value>(s).ok().and_then(
        |v|
            colored_json::ColoredFormatter::new(colored_json::CompactFormatter {}).to_colored_json(
                &v,
                mode,
            ).ok(),
    )
}

/// The MD5 digest of `bytes`.
pub uninterp spec fn md5_of(bytes: Seq<u8>) -> Seq<u8>;

/// `md5::compute(bytes)`, its sixteen bytes.
#[verifier::external_body]
pub(crate) fn md5_digest(bytes: &[u8]) -> (d: Vec<u8>)
    ensures
        d@ == md5_of(bytes@),
        d@.len() == 16,
{
    md5::compute(bytes).0.to_vec()
}

} // verus!
