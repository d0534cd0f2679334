use rust_decimal::Decimal;
use tabby::data::{Data, DataKind};
use tabby::input::{psql, Document, Error};
use tabby::lines::sanitize;
use tabby::width::{display_width, slice_columns};

fn doc() -> Document {
    let text = psql(&[
        vec!["id", "name", "ok", "ratio", "seen"],
        vec!["1", "alice", "t", "0.25", "2025-08-27 07:07:35.502286+00"],
        vec!["22", "bob", "f", "3.00", "2026-06-10 08:30:00+00"],
        vec!["333", "", "t", "-1.5", "2026-08-11 13:00:23+00"],
    ]);

    Document::from_str(&text).expect("expected a table")
}

#[test]
fn slices_ascii() {
    assert_eq!(slice_columns("abcdef", 2, 3), "cde");
    assert_eq!(slice_columns("abcdef", 0, 100), "abcdef");
    assert_eq!(slice_columns("abcdef", 10, 3), "");
    assert_eq!(slice_columns("abcdef", 2, 0), "");
}

#[test]
fn pads_straddling_wide_chars() {
    // "あ" is two columns wide.
    assert_eq!(slice_columns("あい", 1, 3), " い");
    assert_eq!(slice_columns("あい", 0, 3), "あ ");
}

#[test]
fn expands_tabs_and_drops_controls() {
    assert_eq!(sanitize("a\tb"), "a       b");
    assert_eq!(sanitize("a\x07b"), "ab");
}

#[test]
fn reads_names_and_rows() {
    let doc = doc();

    let names: Vec<&str> = doc.columns.iter().map(|c| c.name.as_str()).collect();
    assert_eq!(names, ["id", "name", "ok", "ratio", "seen"]);

    // Three rows: the footer and the blank line after it are not data.
    assert_eq!(doc.rows.len(), 3);
    assert_eq!(doc.rows[0][0], Data::Integer(1));
    assert_eq!(doc.rows[0][1], Data::Text("alice".into()));
    assert_eq!(doc.rows[0][2], Data::Boolean(true));
    // An empty field is NULL.
    assert_eq!(doc.rows[2][1], Data::Null);
}

#[test]
fn infers_column_kinds() {
    let kinds: Vec<DataKind> = doc().columns.iter().map(|c| c.kind).collect();

    assert_eq!(
        kinds,
        [
            DataKind::Integer,
            // NULL in the column does not make it a mixed one.
            DataKind::Text,
            DataKind::Boolean,
            DataKind::Decimal,
            DataKind::TimestampTz,
        ]
    );
}

#[test]
fn measures_columns() {
    let doc = doc();

    // The widest of `id`, `1`, `22`, `333`.
    assert_eq!(doc.columns[0].width, 3);
    // Widths measure the cells as we render them, not as psql printed
    // them: the offset comes back as `+00:00`, three columns wider.
    assert_eq!(
        doc.columns[4].width,
        display_width("2025-08-27 07:07:35.502286+00:00")
    );
}

#[test]
fn keeps_decimals_exact() {
    // Trailing zeros survive: this is `numeric`, not a float.
    assert_eq!(Data::parse("3.00").render(), "3.00");
    assert_eq!(
        Data::parse("-1.5"),
        Data::Decimal(Decimal::new(-15, 1).to_string())
    );
    // Anything that would not print back the same stays text.
    assert_eq!(Data::parse("007"), Data::Text("007".into()));
    assert_eq!(Data::parse("+1"), Data::Text("+1".into()));
    assert_eq!(Data::parse("1e400"), Data::Text("1e400".into()));
    let huge = "123456789012345678901234567890123456789";
    assert_eq!(Data::parse(huge), Data::Text(huge.into()));
}

#[test]
fn parses_postgres_scalars() {
    let cases = [
        ("3008", DataKind::Integer),
        ("f", DataKind::Boolean),
        ("\\x00000186a3", DataKind::Bytes),
        ("2b1f9c4e-0000-4a1b-8c2d-1a2b3c4d5e6f", DataKind::Uuid),
        ("2025-08-27", DataKind::Date),
        ("2025-08-27 07:07:35.502286", DataKind::Timestamp),
        ("2025-08-27 07:07:35.502286+00", DataKind::TimestampTz),
        (r#"{"kam": -999}"#, DataKind::Json),
        ("Fredrik's Bank", DataKind::Text),
        ("{not json", DataKind::Text),
    ];

    for (text, kind) in cases {
        assert_eq!(Data::parse(text).kind(), kind, "parsing {text:?}");
    }
}

#[test]
fn renders_cells_back() {
    // Exact round-trips.
    for text in ["3008", "f", "\\x00000186a3", "2025-08-27", "Fredrik's Bank"] {
        assert_eq!(Data::parse(text).render(), text);
    }

    // Canonicalised: a full offset, and JSON without psql's spacing but
    // with its key order.
    assert_eq!(
        Data::parse("2025-08-27 07:07:35.502286+00").render(),
        "2025-08-27 07:07:35.502286+00:00"
    );
    assert_eq!(
        Data::parse(r#"{"kam": -999, "active": false}"#).render(),
        r#"{"kam":-999,"active":false}"#
    );
    assert_eq!(Data::Null.render(), "");
}

#[test]
fn rejects_input_that_is_not_a_table() {
    // A rule with no header above it, and prose that has neither.
    for text in ["---+---\n 1 | 2\n", "just some prose\n", ""] {
        assert!(matches!(Document::from_str(text), Err(Error::NotATable)));
    }
}

#[test]
fn reads_a_single_column_table() {
    let doc = Document::from_str(" count \n-------\n     7 \n(1 row)\n").unwrap();

    assert_eq!(doc.columns.len(), 1);
    assert_eq!(doc.rows, [[Data::Integer(7)]]);
}

#[test]
fn rejects_dashes_under_prose() {
    // A rule, but no `|` above its `+`: prose that happens to sit over dashes.
    let text = "some words here\n-----+-----\n 1    | 2\n";
    assert!(matches!(Document::from_str(text), Err(Error::NotATable)));
}

#[test]
fn io_errors_are_carried_through() {
    let e: Error = std::io::Error::new(std::io::ErrorKind::NotFound, "gone").into();
    match e {
        Error::Io(inner) => assert_eq!(inner.kind(), std::io::ErrorKind::NotFound),
        Error::NotATable => panic!("expected an I/O error"),
    }
}

#[test]
fn ragged_rows_are_padded_with_nulls() {
    let doc = Document::from_str(" a | b \n---+---\n 1 \n 2 | 3 \n(2 rows)\n").unwrap();
    assert_eq!(doc.rows.len(), 2);
    assert_eq!(doc.rows[0], [Data::Integer(1), Data::Null]);
    assert_eq!(doc.rows[1], [Data::Integer(2), Data::Integer(3)]);
}

#[test]
fn keeps_what_is_above_the_header_out() {
    let text = "Timing is on.\n a | b \n---+---\n 1 | x \n(1 row)\n\nTime: 0.3 ms\n";
    let doc = Document::from_str(text).unwrap();
    let names: Vec<&str> = doc.columns.iter().map(|c| c.name.as_str()).collect();
    assert_eq!(names, ["a", "b"]);
    assert_eq!(doc.rows, [[Data::Integer(1), Data::Text("x".into())]]);
}

#[test]
fn column_width_counts_the_widest_cell_and_the_name() {
    let doc =
        Document::from_str(" n     | longer \n-------+--------\n 12345 | x      \n").unwrap();
    assert_eq!(doc.columns[0].width, 5);
    assert_eq!(doc.columns[1].width, 6);
}

#[test]
fn psql_layout_reads_back_as_its_cells() {
    let table = [
        vec!["name", "note", "n"],
        vec!["", "a | b", "7"],
        vec!["bob", "", "-2"],
        vec!["(x", "y rows)", ""],
    ];
    let doc = Document::from_str(&psql(&table)).expect("a table");

    let names: Vec<&str> = doc.columns.iter().map(|c| c.name.as_str()).collect();
    assert_eq!(names, ["name", "note", "n"]);
    assert_eq!(doc.rows.len(), 3);
    for (r, row) in table[1..].iter().enumerate() {
        for (i, text) in row.iter().enumerate() {
            assert_eq!(doc.rows[r][i], Data::parse(text), "row {r}, column {i}");
        }
    }
}

#[test]
fn reads_bytes_that_are_not_utf8() {
    let doc = Document::from_bytes(b" a  \n----\n x\xff \n(1 row)\n").expect("a table");
    assert_eq!(doc.rows, [[Data::Text("x\u{FFFD}".into())]]);
    assert!(matches!(Document::from_bytes(b"\xff\xfe"), Err(Error::NotATable)));
}

#[test]
fn what_stands_around_the_table_changes_nothing() {
    let table = " a | b \n---+---\n 1 | x \n(1 row)\n";
    let plain = Document::from_str(table).unwrap();

    for text in [
        format!("Timing is on.\n\n{table}"),
        format!("{table}\nTime: 0.3 ms\n"),
        format!("{table}\n 9 | y \n---+---\n"),
    ] {
        let doc = Document::from_str(&text).unwrap();
        assert_eq!(doc.rows, plain.rows);
        let names: Vec<&str> = doc.columns.iter().map(|c| c.name.as_str()).collect();
        assert_eq!(names, ["a", "b"]);
    }
}

#[test]
fn sanitizing_twice_is_sanitizing_once() {
    for line in ["a\tb\x07c", "\t\tx", "plain"] {
        let once = sanitize(line);
        assert_eq!(sanitize(&once), once);
    }
    assert_eq!(sanitize("plain"), "plain");
}
