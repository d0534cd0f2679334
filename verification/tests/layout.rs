use tabby::app::{App, KeyCode, KeyEvent};
use tabby::data::Data;
use tabby::input::{psql, Document};
use tabby::json::plain;
use tabby::layout::{
    body_plan, cell_text, center, clip, fill, header_names, join, json_layout, pad, row_lines,
    rule_text, status_text,
};

type Seg = (String, ());

/// One row's cells, each as its lines padded to the column.
fn cells(app: &App, row: usize) -> Vec<Vec<Vec<Seg>>> {
    app.doc.rows[row]
        .iter()
        .enumerate()
        .map(|(i, cell)| {
            let lines: Vec<String> = match cell {
                Data::Json(v) => plain(v, json_layout(app, i))
                    .lines()
                    .map(str::to_string)
                    .collect(),
                other => vec![cell_text(app, i, other)],
            };
            lines
                .into_iter()
                .map(|l| fill(vec![(l, ())], app.width(i), ()))
                .collect()
        })
        .collect()
}

fn line_text(line: Vec<Seg>) -> String {
    line.into_iter().map(|(t, _)| t).collect()
}

/// The screen as text, `height` lines of `width`: the names, the rule, the
/// rows and the status line.
fn screen(app: &mut App, width: usize, height: usize) -> Vec<String> {
    app.view_height = height.saturating_sub(3);
    app.view_width = width;
    app.clamp();
    let (start, end) = (app.left, app.left + app.view_width);

    let names: Vec<Vec<Seg>> = header_names(app).into_iter().map(|n| vec![(n, ())]).collect();
    let mut lines = vec![
        line_text(clip(join(&names, "│", (), ()), start, end)),
        line_text(clip(vec![(rule_text(app, "─", "┼"), ())], start, end)),
    ];
    for (row, line) in body_plan(app) {
        let laid = row_lines(app, &cells(app, row), "│", (), ());
        lines.push(line_text(clip(laid[line].clone(), start, end)));
    }
    while lines.len() < height - 1 {
        lines.push(String::new());
    }
    lines.push(status_text(app));
    lines.into_iter().map(|l| format!("{l:<width$}")).collect()
}

fn app() -> App {
    let text = psql(&[
        vec!["id", "name", "ratio"],
        vec!["1", "alice", "0.25"],
        vec!["22", "", "3.00"],
    ]);
    App::new(Document::from_str(&text).expect("a table"))
}

#[test]
fn lays_the_table_out_from_the_values() {
    let lines = screen(&mut app(), 24, 5);
    assert_eq!(
        lines[..4],
        [
            " id │ name  │ ratio   ",
            "────┼───────┼───────  ",
            "  1 │ alice │  0.25   ",
            " 22 │       │  3.00   ",
        ]
        .map(|l| format!("{l:<24}"))
    );
}

#[test]
fn pretty_prints_an_expanded_json_column() {
    let text = psql(&[vec!["id", "doc"], vec!["1", r#"{"a": 1}"#], vec!["2", "{}"]]);
    let mut app = App::new(Document::from_str(&text).expect("a table"));

    // Folded, the value sits on the one line its row is tall.
    assert_eq!(screen(&mut app, 20, 5)[2], format!("{:<20}", "  1 │ {\"a\":1}"));

    app.handle_key(KeyEvent::new(KeyCode::Char('x'), false));
    let lines = screen(&mut app, 20, 6);
    assert_eq!(
        lines[..5],
        [
            " id │   doc    ",
            "────┼──────────",
            "  1 │ {        ",
            "    │   \"a\": 1 ",
            "    │ }        ",
        ]
        .map(|l| format!("{l:<20}"))
    );
}

#[test]
fn clips_to_the_horizontal_viewport() {
    // The table is 20 wide, so in a 12 wide screen it can scroll by 8.
    let mut app = app();
    app.left = 6;
    let lines = screen(&mut app, 12, 5);
    assert_eq!(lines[0], "name  │ rati");
    assert_eq!(lines[2], "alice │  0.2");
}

#[test]
fn status_line_counts_rows_and_names_the_column() {
    let mut app = app();
    let lines = screen(&mut app, 40, 5);
    assert_eq!(lines[4], format!("{:<40}", " 1-2/2 rows  col 1 id  100%  q:quit "));

    app.left = 5;
    let lines = screen(&mut app, 12, 5);
    assert_eq!(lines[4], " 1-2/2 rows  col 6 name  100%  q:quit ");
}

#[test]
fn status_line_offers_the_readable_form() {
    let text = psql(&[vec!["doc"], vec![r#"{"a": 1}"#]]);
    let mut app = App::new(Document::from_str(&text).expect("a table"));
    assert!(status_text(&app).ends_with("x:json  q:quit "));
    app.handle_key(KeyEvent::new(KeyCode::Char('x'), false));
    assert!(status_text(&app).ends_with("x:fold  q:quit "));
}

#[test]
fn readable_blobs_show_their_digest() {
    let text = psql(&[vec!["blob"], vec!["\\x616263"]]);
    let mut app = App::new(Document::from_str(&text).expect("a table"));
    let cell = app.doc.rows[0][0].clone();
    assert_eq!(cell_text(&app, 0, &cell), "\\x616263");
    app.handle_key(KeyEvent::new(KeyCode::Char('x'), false));
    // MD5 of "abc" starts 90015098.
    assert_eq!(cell_text(&app, 0, &cell), "3 B  90015098");
}

#[test]
fn pads_numbers_right_and_text_left() {
    assert_eq!(pad("7", 4, true), "   7");
    assert_eq!(pad("ab", 4, false), "ab  ");
    assert_eq!(pad("toolong", 3, false), "toolong");
    assert_eq!(pad("あ", 4, false), "あ  ");
}

#[test]
fn centres_with_the_odd_space_on_the_right() {
    assert_eq!(center("ab", 5), " ab  ");
    assert_eq!(center("abc", 5), " abc ");
    assert_eq!(center("abcdef", 3), "abcdef");
}

#[test]
fn fills_a_short_line_out_to_its_width() {
    let line = fill(vec![("ab".to_string(), 1u8), ("c".to_string(), 2u8)], 5, 0u8);
    assert_eq!(
        line,
        vec![("ab".to_string(), 1), ("c".to_string(), 2), ("  ".to_string(), 0)]
    );
    let full = fill(vec![("abcde".to_string(), 1u8)], 5, 0u8);
    assert_eq!(full, vec![("abcde".to_string(), 1)]);
}

#[test]
fn joins_cells_with_padding_and_separators() {
    let cells = vec![vec![("a".to_string(), 1u8)], vec![("b".to_string(), 1u8)]];
    let line = join(&cells, "|", 9u8, 0u8);
    assert_eq!(
        line,
        vec![
            (" ".to_string(), 0),
            ("a".to_string(), 1),
            (" ".to_string(), 0),
            ("|".to_string(), 9),
            (" ".to_string(), 0),
            ("b".to_string(), 1),
            (" ".to_string(), 0),
        ]
    );
}

#[test]
fn clips_segments_to_the_view() {
    let line = vec![("abc".to_string(), 1u8), ("defg".to_string(), 2u8)];
    assert_eq!(
        clip(line.clone(), 2, 5),
        vec![("c".to_string(), 1), ("de".to_string(), 2)]
    );
    assert_eq!(clip(line.clone(), 0, 3), vec![("abc".to_string(), 1)]);
    assert_eq!(clip(line, 7, 10), vec![]);
}

#[test]
fn a_row_is_as_tall_as_its_tallest_cell() {
    let text = psql(&[vec!["id", "doc"], vec!["1", r#"{"a": 1}"#]]);
    let mut app = App::new(Document::from_str(&text).expect("a table"));
    app.handle_key(KeyEvent::new(KeyCode::Char('x'), false));
    let laid = row_lines(&app, &cells(&app, 0), "│", (), ());
    assert_eq!(laid.len(), 3);
    assert_eq!(line_text(laid[1].clone()), "    │   \"a\": 1 ");
}

#[test]
fn the_body_starts_part_way_down_a_tall_row() {
    let text = psql(&[vec!["doc"], vec![r#"{"a": 1}"#], vec!["[]"]]);
    let mut app = App::new(Document::from_str(&text).expect("a table"));
    app.handle_key(KeyEvent::new(KeyCode::Char('x'), false));
    app.view_height = 3;
    app.top = 1;
    assert_eq!(body_plan(&app), vec![(0, 1), (0, 2), (1, 0)]);
}
