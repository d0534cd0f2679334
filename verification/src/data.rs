//! One cell of the table: recognising what it holds, and writing it out again.

use vstd::prelude::*;

use crate::chars::{chars_of, push_char};
use crate::scalars::{
    date_layout, date_text, decimal_exact, decimal_text, hex_digit, i64_to_string, int_literal_value,
    int_text, json_text, naive_datetime_text, offset_datetime_text, parse_date, parse_i64, parse_json,
    parse_naive_datetime, parse_offset_datetime, timestamp_layout, timestamptz_layout, uuid_parse,
    uuid_text,
};

verus! {

/// The kinds of value a cell can hold, used to describe a whole column and to
/// pick a colour.
#[derive(Debug, Clone, Copy, PartialEq, Eq, Structural)]
pub enum DataKind {
    Null,
    Boolean,
    Integer,
    Decimal,
    Date,
    Timestamp,
    TimestampTz,
    Uuid,
    Json,
    Bytes,
    Text,
}

/// One parsed cell.
///
/// Values that cannot be represented exactly stay [`Data::Text`], so nothing is
/// ever shown with digits it did not have. Timestamps and JSON are the
/// exception: they are re-rendered in a canonical form, which can differ
/// cosmetically from psql's (`+00:00` for the offset, no spaces in JSON).
///
/// Decimals, UUIDs, dates, timestamps and JSON are held in their canonical
/// text: the text rust_decimal, uuid, chrono and serde_json write the parsed
/// value out as.
#[derive(Debug, Clone, PartialEq)]
pub enum Data {
    Null,
    Boolean(bool),
    Integer(i64),
    Decimal(String),
    Date(String),
    Timestamp(String),
    TimestampTz(String),
    Uuid(String),
    Json(String),
    /// A `bytea` hex literal, e.g. `\x00000186a3`.
    Bytes(Vec<u8>),
    Text(String),
}

/// The mathematical value of a [`Data`].
pub enum DataView {
    Null,
    Boolean(bool),
    Integer(i64),
    Decimal(Seq<char>),
    Date(Seq<char>),
    Timestamp(Seq<char>),
    TimestampTz(Seq<char>),
    Uuid(Seq<char>),
    Json(Seq<char>),
    Bytes(Seq<u8>),
    Text(Seq<char>),
}

impl View for Data {
    type V = DataView;

    open spec fn view(&self) -> DataView {
        match self {
            Data::Null => DataView::Null,
            Data::Boolean(b) => DataView::Boolean(*b),
            Data::Integer(i) => DataView::Integer(*i),
            Data::Decimal(s) => DataView::Decimal(s@),
            Data::Date(s) => DataView::Date(s@),
            Data::Timestamp(s) => DataView::Timestamp(s@),
            Data::TimestampTz(s) => DataView::TimestampTz(s@),
            Data::Uuid(s) => DataView::Uuid(s@),
            Data::Json(s) => DataView::Json(s@),
            Data::Bytes(b) => DataView::Bytes(b@),
            Data::Text(s) => DataView::Text(s@),
        }
    }
}

pub open spec fn kind_of(d: DataView) -> DataKind {
    match d {
        DataView::Null => DataKind::Null,
        DataView::Boolean(_) => DataKind::Boolean,
        DataView::Integer(_) => DataKind::Integer,
        DataView::Decimal(_) => DataKind::Decimal,
        DataView::Date(_) => DataKind::Date,
        DataView::Timestamp(_) => DataKind::Timestamp,
        DataView::TimestampTz(_) => DataKind::TimestampTz,
        DataView::Uuid(_) => DataKind::Uuid,
        DataView::Json(_) => DataKind::Json,
        DataView::Bytes(_) => DataKind::Bytes,
        DataView::Text(_) => DataKind::Text,
    }
}

impl DataKind {
    /// Numbers are right-aligned, as psql aligns them.
    pub fn is_numeric(self) -> (b: bool)
        ensures
            b == (self == DataKind::Integer || self == DataKind::Decimal),
    {
        match self {
            DataKind::Integer | DataKind::Decimal => true,
            _ => false,
        }
    }

    /// JSON can be spread over several lines, and a `bytea` blob shrunk to its
    /// size and checksum; nothing else has a second form.
    pub fn has_readable_form(self) -> (b: bool)
        ensures
            b == (self == DataKind::Json || self == DataKind::Bytes),
    {
        match self {
            DataKind::Json | DataKind::Bytes => true,
            _ => false,
        }
    }
}

/// A column's type is whatever its cells agree on. NULLs abstain, and whole
/// numbers among decimals still make a decimal column.
pub open spec fn merge_spec(a: DataKind, b: DataKind) -> DataKind {
    if a == DataKind::Null {
        b
    } else if b == DataKind::Null {
        a
    } else if a == b {
        a
    } else if (a == DataKind::Integer && b == DataKind::Decimal) || (a == DataKind::Decimal && b
        == DataKind::Integer) {
        DataKind::Decimal
    } else {
        DataKind::Text
    }
}

pub fn merge(a: DataKind, b: DataKind) -> (k: DataKind)
    ensures
        k == merge_spec(a, b),
{
    match (a, b) {
        (DataKind::Null, other) | (other, DataKind::Null) => other,
        _ if a == b => a,
        (DataKind::Integer, DataKind::Decimal) | (DataKind::Decimal, DataKind::Integer) => {
            DataKind::Decimal
        },
        _ => DataKind::Text,
    }
}

/// Merging kinds does not depend on their order: NULL changes nothing, a kind
/// merged with itself stays, and the result is the same whichever way round
/// or however grouped the kinds are taken.
pub proof fn law_merge_order_free(a: DataKind, b: DataKind, c: DataKind)
    ensures
        merge_spec(DataKind::Null, a) == a,
        merge_spec(a, DataKind::Null) == a,
        merge_spec(a, a) == a,
        merge_spec(a, b) == merge_spec(b, a),
        merge_spec(merge_spec(a, b), c) == merge_spec(a, merge_spec(b, c)),
{
}

pub open spec fn ascii_lower(c: char) -> char {
    if 'A' <= c <= 'Z' {
        ((c as int) + 32) as char
    } else {
        c
    }
}

/// `str::eq_ignore_ascii_case`.
pub open spec fn eq_ignore_ascii_case(a: Seq<char>, b: Seq<char>) -> bool {
    a.len() == b.len() && forall|i: int| 0 <= i < a.len() ==> ascii_lower(a[i]) == ascii_lower(
        b[i],
    )
}

pub open spec fn bool_value(t: Seq<char>) -> Option<bool> {
    if t == seq!['t'] || eq_ignore_ascii_case(t, seq!['t', 'r', 'u', 'e']) {
        Some(true)
    } else if t == seq!['f'] || eq_ignore_ascii_case(t, seq!['f', 'a', 'l', 's', 'e']) {
        Some(false)
    } else {
        None
    }
}

fn eq_ignore_ascii_case_exec(a: &[char], b: &[char]) -> (r: bool)
    ensures
        r == eq_ignore_ascii_case(a@, b@),
{
    if a.len() != b.len() {
        return false;
    }
    let mut i: usize = 0;
    while i < a.len()
        invariant
            a@.len() == b@.len(),
            i <= a@.len(),
            forall|j: int| 0 <= j < i ==> ascii_lower(a@[j]) == ascii_lower(b@[j]),
        decreases a@.len() - i,
    {
        let x = a[i];
        let y = b[i];
        let lx = if 'A' <= x && x <= 'Z' {
            ((x as u32) + 32) as u8 as char
        } else {
            x
        };
        let ly = if 'A' <= y && y <= 'Z' {
            ((y as u32) + 32) as u8 as char
        } else {
            y
        };
        if lx != ly {
            return false;
        }
        i += 1;
    }
    true
}

/// `t`, `f`, and `true` or `false` in any case.
pub fn parse_bool(text: &[char]) -> (r: Option<bool>)
    ensures
        r == bool_value(text@),
{
    let t = ['t', 'r', 'u', 'e'];
    let f = ['f', 'a', 'l', 's', 'e'];
    assert(t@ =~= seq!['t', 'r', 'u', 'e']);
    assert(f@ =~= seq!['f', 'a', 'l', 's', 'e']);
    if text.len() == 1 && text[0] == 't' {
        assert(text@ =~= seq!['t']);
        Some(true)
    } else if text.len() == 1 && text[0] == 'f' {
        assert(text@ =~= seq!['f']);
        Some(false)
    } else if eq_ignore_ascii_case_exec(text, &t) {
        Some(true)
    } else if eq_ignore_ascii_case_exec(text, &f) {
        proof {
            if text@ == seq!['t'] {
                assert(text.len() == 1 && text@[0] == 't');
            }
        }
        Some(false)
    } else {
        proof {
            if text@ == seq!['t'] {
                assert(text.len() == 1 && text@[0] == 't');
            }
            if text@ == seq!['f'] {
                assert(text.len() == 1 && text@[0] == 'f');
            }
        }
        None
    }
}

/// A lowercase hex digit: how psql writes `bytea`.
pub open spec fn is_hex_lower(c: char) -> bool {
    ('0' <= c <= '9') || ('a' <= c <= 'f')
}

pub open spec fn hex_value(c: char) -> int {
    if c <= '9' {
        c as int - '0' as int
    } else {
        c as int - 'a' as int + 10
    }
}

/// The bytes of a `bytea` hex literal: `\x` and then a nonempty, even run of
/// lowercase hex digits, two to a byte. Uppercase is refused: psql never
/// writes it, and writing such a literal back would change it.
pub open spec fn bytea_value(t: Seq<char>) -> Option<Seq<u8>> {
    let hex = t.skip(2);
    if t.len() >= 2 && t[0] == '\\' && t[1] == 'x' && hex.len() > 0 && hex.len() % 2 == 0 && (
    forall|i: int| 0 <= i < hex.len() ==> is_hex_lower(#[trigger] hex[i])) {
        Some(
            Seq::new(
                (hex.len() / 2) as nat,
                |i: int| (hex_value(hex[2 * i]) * 16 + hex_value(hex[2 * i + 1])) as u8,
            ),
        )
    } else {
        None
    }
}

fn hex_val_exec(c: char) -> (v: u8)
    requires
        is_hex_lower(c),
    ensures
        v == hex_value(c),
        v < 16,
{
    if c <= '9' {
        ((c as u32) - ('0' as u32)) as u8
    } else {
        ((c as u32) - ('a' as u32) + 10) as u8
    }
}

pub fn parse_bytea(text: &[char]) -> (r: Option<Vec<u8>>)
    ensures
        match r {
            Some(v) => bytea_value(text@) == Some(v@),
            None => bytea_value(text@) is None,
        },
{
    let n = text.len();
    if n < 2 || text[0] != '\\' || text[1] != 'x' {
        return None;
    }
    let ghost hex = text@.skip(2);
    let m = n - 2;
    if m == 0 || m % 2 != 0 {
        return None;
    }
    let mut i: usize = 2;
    while i < n
        invariant
            2 <= i <= n,
            n == text@.len(),
            hex == text@.skip(2),
            forall|j: int| 0 <= j < i - 2 ==> is_hex_lower(#[trigger] hex[j]),
        decreases n - i,
    {
        let c = text[i];
        if !(('0' <= c && c <= '9') || ('a' <= c && c <= 'f')) {
            assert(!is_hex_lower(hex[i - 2]));
            return None;
        }
        i += 1;
    }
    let mut out: Vec<u8> = Vec::new();
    let mut k: usize = 0;
    while k < m / 2
        invariant
            m == hex.len(),
            m == n - 2,
            m % 2 == 0,
            n == text@.len(),
            hex == text@.skip(2),
            k <= m / 2,
            forall|j: int| 0 <= j < m ==> is_hex_lower(#[trigger] hex[j]),
            out@ == Seq::new(
                k as nat,
                |j: int| (hex_value(hex[2 * j]) * 16 + hex_value(hex[2 * j + 1])) as u8,
            ),
        decreases m / 2 - k,
    {
        assert(hex[2 * k as int] == text@[2 + 2 * k]);
        assert(hex[2 * k + 1] == text@[2 + 2 * k + 1]);
        assert(is_hex_lower(hex[2 * k as int]));
        assert(is_hex_lower(hex[2 * k + 1]));
        let hi = hex_val_exec(text[2 + 2 * k]);
        let lo = hex_val_exec(text[2 + 2 * k + 1]);
        out.push(hi * 16 + lo);
        k += 1;
        assert(out@ =~= Seq::new(
            k as nat,
            |j: int| (hex_value(hex[2 * j]) * 16 + hex_value(hex[2 * j + 1])) as u8,
        ));
    }
    assert(out@ =~= bytea_value(text@)->0);
    Some(out)
}

/// Lowercase hex, two digits a byte.
pub open spec fn hex_text(b: Seq<u8>) -> Seq<char> {
    Seq::new(
        2 * b.len(),
        |i: int|
            if i % 2 == 0 {
                hex_digit(b[i / 2] as int / 16)
            } else {
                hex_digit(b[i / 2] as int % 16)
            },
    )
}

/// How a cell is written out again. NULL renders as nothing, the way psql
/// prints it.
pub open spec fn render_spec(d: DataView) -> Seq<char> {
    match d {
        DataView::Null => seq![],
        DataView::Boolean(b) => if b {
            seq!['t']
        } else {
            seq!['f']
        },
        DataView::Integer(i) => int_text(i as int),
        DataView::Decimal(s) => s,
        DataView::Date(s) => s,
        DataView::Timestamp(s) => s,
        DataView::TimestampTz(s) => s,
        DataView::Uuid(s) => s,
        DataView::Json(s) => s,
        DataView::Bytes(b) => seq!['\\', 'x'] + hex_text(b),
        DataView::Text(s) => s,
    }
}

/// The pattern timestamps with a time zone are read with: the offset may come
/// with or without its minutes, as psql writes `+00`.
pub open spec fn timestamptz_pattern() -> Seq<char> {
    "%Y-%m-%d %H:%M:%S%.f%#z"@
}

/// What the outside parsers make of a cell's text, each written back as
/// its crate writes it: std's `i64`, rust_decimal, uuid, chrono's three
/// time types and serde_json.
pub struct Readings {
    pub integer: Option<i64>,
    pub decimal: Option<String>,
    pub uuid: Option<String>,
    pub timestamptz: Option<String>,
    pub timestamp: Option<String>,
    pub date: Option<String>,
    pub json: Option<String>,
}

pub struct ReadingsView {
    pub integer: Option<i64>,
    pub decimal: Option<Seq<char>>,
    pub uuid: Option<Seq<char>>,
    pub timestamptz: Option<Seq<char>>,
    pub timestamp: Option<Seq<char>>,
    pub date: Option<Seq<char>>,
    pub json: Option<Seq<char>>,
}

impl View for Readings {
    type V = ReadingsView;

    open spec fn view(&self) -> ReadingsView {
        ReadingsView {
            integer: self.integer,
            decimal: self.decimal.deep_view(),
            uuid: self.uuid.deep_view(),
            timestamptz: self.timestamptz.deep_view(),
            timestamp: self.timestamp.deep_view(),
            date: self.date.deep_view(),
            json: self.json.deep_view(),
        }
    }
}

/// What the outside parsers make of `t`.
pub open spec fn readings_spec(t: Seq<char>) -> ReadingsView {
    ReadingsView {
        integer: match int_literal_value(t) {
            Some(v) => if i64::MIN <= v <= i64::MAX {
                Some(v as i64)
            } else {
                None
            },
            None => None,
        },
        decimal: decimal_text(t),
        uuid: uuid_text(t),
        timestamptz: offset_datetime_text(t, timestamptz_pattern(), timestamptz_layout()),
        timestamp: naive_datetime_text(t, timestamp_layout(), timestamp_layout()),
        date: date_text(t, date_layout()),
        json: json_text(t),
    }
}

/// Recognise one cell of psql output from what the parsers made of it,
/// trying each kind in turn. Numbers and UUIDs count only when they write
/// back exactly as they came in.
pub open spec fn classify_spec(t: Seq<char>, r: ReadingsView) -> DataView {
    if t.len() == 0 {
        DataView::Null
    } else if bool_value(t) is Some {
        DataView::Boolean(bool_value(t)->0)
    } else if bytea_value(t) is Some {
        DataView::Bytes(bytea_value(t)->0)
    } else if r.integer is Some && int_text(r.integer->0 as int) == t {
        DataView::Integer(r.integer->0)
    } else if r.decimal == Some(t) {
        DataView::Decimal(t)
    } else if r.uuid == Some(t) {
        DataView::Uuid(t)
    } else if r.timestamptz is Some {
        DataView::TimestampTz(r.timestamptz->0)
    } else if r.timestamp is Some {
        DataView::Timestamp(r.timestamp->0)
    } else if r.date is Some {
        DataView::Date(r.date->0)
    } else if (t[0] == '{' || t[0] == '[') && r.json is Some {
        DataView::Json(r.json->0)
    } else {
        DataView::Text(t)
    }
}

/// Recognise one cell of psql output, trying each kind in turn.
pub open spec fn parse_spec(t: Seq<char>) -> DataView {
    classify_spec(t, readings_spec(t))
}

fn string_eq(a: &String, b: &String) -> (r: bool)
    ensures
        r == (a@ == b@),
{
    a.eq(b)
}

impl Data {
    /// Recognise one cell of psql output.
    ///
    /// Numbers are only taken as numbers when they print back exactly as they
    /// came in, so `007`, `1e400` and a 40-digit `numeric` stay text rather
    /// than being quietly rounded or reshaped.
    pub fn parse(text: &str) -> (d: Data)
        ensures
            d@ == parse_spec(text@),
    {
        let readings = Readings {
            integer: parse_i64(text),
            decimal: decimal_exact(text),
            uuid: uuid_parse(text),
            timestamptz: parse_offset_datetime(
                text,
                "%Y-%m-%d %H:%M:%S%.f%#z",
                "%Y-%m-%d %H:%M:%S%.f%:z",
            ),
            timestamp: parse_naive_datetime(
                text,
                "%Y-%m-%d %H:%M:%S%.f",
                "%Y-%m-%d %H:%M:%S%.f",
            ),
            date: parse_date(text, "%Y-%m-%d"),
            json: parse_json(text),
        };
        Data::classify(text, &readings)
    }

    /// Recognise one cell of psql output from what the parsers made of its
    /// text.
    pub fn classify(text: &str, readings: &Readings) -> (d: Data)
        ensures
            d@ == classify_spec(text@, readings@),
    {
        let t = chars_of(text);
        if t.len() == 0 {
            return Data::Null;
        }
        if let Some(b) = parse_bool(t.as_slice()) {
            return Data::Boolean(b);
        }
        if let Some(bytes) = parse_bytea(t.as_slice()) {
            return Data::Bytes(bytes);
        }
        let owned = String::from_str(text);
        if let Some(i) = readings.integer {
            let back = i64_to_string(i);
            if string_eq(&back, &owned) {
                return Data::Integer(i);
            }
        }
        if let Some(d) = &readings.decimal {
            if string_eq(d, &owned) {
                return Data::Decimal(owned);
            }
        }
        if let Some(u) = &readings.uuid {
            if string_eq(u, &owned) {
                return Data::Uuid(owned);
            }
        }
        if let Some(ts) = &readings.timestamptz {
            return Data::TimestampTz(ts.clone());
        }
        if let Some(ts) = &readings.timestamp {
            return Data::Timestamp(ts.clone());
        }
        if let Some(d) = &readings.date {
            return Data::Date(d.clone());
        }
        // Only objects and arrays: a bare `123` is a number, not JSON.
        if t[0] == '{' || t[0] == '[' {
            if let Some(v) = &readings.json {
                return Data::Json(v.clone());
            }
        }
        Data::Text(owned)
    }

    pub fn kind(&self) -> (k: DataKind)
        ensures
            k == kind_of(self@),
    {
        match self {
            Data::Null => DataKind::Null,
            Data::Boolean(_) => DataKind::Boolean,
            Data::Integer(_) => DataKind::Integer,
            Data::Decimal(_) => DataKind::Decimal,
            Data::Date(_) => DataKind::Date,
            Data::Timestamp(_) => DataKind::Timestamp,
            Data::TimestampTz(_) => DataKind::TimestampTz,
            Data::Uuid(_) => DataKind::Uuid,
            Data::Json(_) => DataKind::Json,
            Data::Bytes(_) => DataKind::Bytes,
            Data::Text(_) => DataKind::Text,
        }
    }

    /// How the cell is written out again, the way psql prints it: NULL as
    /// nothing, booleans as `t` or `f`, `bytea` as `\x` and lowercase hex,
    /// everything else as its text.
    pub fn render(&self) -> (s: String)
        ensures
            s@ == render_spec(self@),
    {
        match self {
            Data::Null => String::new(),
            Data::Boolean(b) => {
                let mut s = String::new();
                push_char(&mut s, if *b { 't' } else { 'f' });
                s
            },
            Data::Integer(i) => i64_to_string(*i),
            Data::Decimal(s) => s.clone(),
            Data::Date(s) => s.clone(),
            Data::Timestamp(s) => s.clone(),
            Data::TimestampTz(s) => s.clone(),
            Data::Uuid(s) => s.clone(),
            Data::Json(s) => s.clone(),
            Data::Bytes(bytes) => {
                let mut s = String::new();
                push_char(&mut s, '\\');
                push_char(&mut s, 'x');
                push_hex(&mut s, bytes.as_slice());
                s
            },
            Data::Text(s) => s.clone(),
        }
    }
}

fn hex_char(d: u8) -> (c: char)
    requires
        d < 16,
    ensures
        c == hex_digit(d as int),
{
    if d < 10 {
        (('0' as u8) + d) as char
    } else {
        (('a' as u8) + d - 10) as char
    }
}

/// Append `b` in lowercase hex.
pub(crate) fn push_hex(s: &mut String, b: &[u8])
    ensures
        final(s)@ == old(s)@ + hex_text(b@),
{
    let mut i: usize = 0;
    while i < b.len()
        invariant
            i <= b@.len(),
            s@ == old(s)@ + hex_text(b@.take(i as int)),
        decreases b@.len() - i,
    {
        let ghost before = s@;
        push_char(s, hex_char(b[i] / 16));
        push_char(s, hex_char(b[i] % 16));
        i += 1;
        assert(hex_text(b@.take(i as int)) =~= hex_text(b@.take(i - 1)) + seq![
            hex_digit(b@[i - 1] as int / 16),
            hex_digit(b@[i - 1] as int % 16),
        ]);
        assert(s@ =~= old(s)@ + hex_text(b@.take(i as int)));
    }
    assert(b@.take(b@.len() as int) =~= b@);
}

} // verus!

verus! {

proof fn lemma_hex_digit_value(c: char)
    requires
        is_hex_lower(c),
    ensures
        hex_digit(hex_value(c)) == c,
        0 <= hex_value(c) < 16,
{
}

proof fn lemma_byte_split(hi: int, lo: int)
    requires
        0 <= hi < 16,
        0 <= lo < 16,
    ensures
        ((hi * 16 + lo) as u8) as int / 16 == hi,
        ((hi * 16 + lo) as u8) as int % 16 == lo,
{
    assert(0 <= hi * 16 + lo < 256) by (nonlinear_arith)
        requires
            0 <= hi < 16,
            0 <= lo < 16,
    ;
    assert((hi * 16 + lo) / 16 == hi && (hi * 16 + lo) % 16 == lo) by (nonlinear_arith)
        requires
            0 <= hi < 16,
            0 <= lo < 16,
    ;
}

/// A `bytea` literal is written back exactly as it was read.
pub proof fn law_bytea_round_trip(t: Seq<char>)
    requires
        bytea_value(t) is Some,
    ensures
        seq!['\\', 'x'] + hex_text(bytea_value(t)->0) == t,
{
    let hex = t.skip(2);
    let b = bytea_value(t)->0;
    let out = seq!['\\', 'x'] + hex_text(b);
    assert forall|i: int| 0 <= i < hex.len() implies #[trigger] hex_text(b)[i] == hex[i] by {
        let k = i / 2;
        assert(0 <= 2 * k + 1 < hex.len());
        lemma_hex_digit_value(hex[2 * k]);
        lemma_hex_digit_value(hex[2 * k + 1]);
        lemma_byte_split(hex_value(hex[2 * k]), hex_value(hex[2 * k + 1]));
        if i % 2 == 0 {
            assert(i == 2 * k);
        } else {
            assert(i == 2 * k + 1);
        }
    }
    assert(out =~= t);
}

/// A boolean is written out so that it reads back as the same boolean, and
/// psql's own `t` and `f` are written out as they came in.
pub proof fn law_booleans_read_back(t: Seq<char>)
    requires
        parse_spec(t) is Boolean,
    ensures
        parse_spec(render_spec(parse_spec(t))) == parse_spec(t),
        t == seq!['t'] || t == seq!['f'] ==> render_spec(parse_spec(t)) == t,
{
    let tt = seq!['t'];
    let ff = seq!['f'];
    assert(bool_value(tt) == Some(true));
    assert(bool_value(ff) == Some(false));
    assert(parse_spec(tt) == DataView::Boolean(true));
    assert(parse_spec(ff) == DataView::Boolean(false));
}

/// Numbers, UUIDs, blobs and text print back exactly as they came in; only
/// booleans, times and JSON are written in a canonical form of their own.
pub proof fn law_exact_round_trip(t: Seq<char>)
    requires
        kind_of(parse_spec(t)) != DataKind::Boolean,
        kind_of(parse_spec(t)) != DataKind::Date,
        kind_of(parse_spec(t)) != DataKind::Timestamp,
        kind_of(parse_spec(t)) != DataKind::TimestampTz,
        kind_of(parse_spec(t)) != DataKind::Json,
    ensures
        render_spec(parse_spec(t)) == t,
{
    if t.len() == 0 {
        assert(t =~= seq![]);
    } else if bool_value(t) is Some {
    } else if bytea_value(t) is Some {
        law_bytea_round_trip(t);
    }
}

} // verus!

verus! {

/// A blob's short form: its size and the first eight hex digits of its MD5.
pub open spec fn digest_spec(b: Seq<u8>) -> Seq<char> {
    crate::scalars::nat_text(b.len()) + seq![' ', 'B', ' ', ' '] + hex_text(
        crate::scalars::md5_of(b).take(4),
    )
}

/// A blob's short form, e.g. `32 B  1f3870be`: its size in bytes and the
/// first eight hex digits of its MD5 checksum.
pub fn digest(bytes: &[u8]) -> (s: String)
    ensures
        s@ == digest_spec(bytes@),
{
    let mut s = crate::scalars::usize_to_string(bytes.len());
    push_char(&mut s, ' ');
    push_char(&mut s, 'B');
    push_char(&mut s, ' ');
    push_char(&mut s, ' ');
    let sum = crate::scalars::md5_digest(bytes);
    let head = [sum[0], sum[1], sum[2], sum[3]];
    assert(head@ =~= sum@.take(4));
    push_hex(&mut s, &head);
    assert(s@ =~= digest_spec(bytes@));
    s
}

} // verus!
