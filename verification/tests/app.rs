use tabby::app::{App, KeyCode, KeyEvent, KeyEventKind};
use tabby::input::{psql, Document};

/// A one-column table of `rows` rows, laid out `width` columns wide plus
/// the space either side of the cells.
fn app(rows: usize, width: usize) -> App {
    let name = "n".repeat(width);
    let ids: Vec<String> = (0..rows).map(|i| i.to_string()).collect();

    let mut table = vec![vec![name.as_str()]];
    table.extend(ids.iter().map(|id| vec![id.as_str()]));

    let mut app = App::new(Document::from_str(&psql(&table)).expect("a table"));
    app.view_height = 10;
    app.view_width = 10;
    app
}

fn press(app: &mut App, code: KeyCode) {
    app.handle_key(KeyEvent::new(code, false));
}

#[test]
fn vertical_scroll_stops_at_last_page() {
    let mut a = app(25, 5);
    press(&mut a, KeyCode::End);
    assert_eq!(a.top, 15);
    press(&mut a, KeyCode::Down);
    assert_eq!(a.top, 15);
    press(&mut a, KeyCode::Up);
    assert_eq!(a.top, 14);
}

#[test]
fn does_not_scroll_when_content_fits() {
    let mut a = app(3, 5);
    press(&mut a, KeyCode::Down);
    press(&mut a, KeyCode::Right);
    assert_eq!((a.top, a.left), (0, 0));
}

#[test]
fn horizontal_scroll_clamps_to_last_column() {
    // 14 columns of cell plus a space either side, against a 10 wide view.
    let mut a = app(3, 14);
    press(&mut a, KeyCode::Char('$'));
    assert_eq!(a.left, 6);
    press(&mut a, KeyCode::Right);
    assert_eq!(a.left, 6);
    press(&mut a, KeyCode::Char('0'));
    assert_eq!(a.left, 0);
    press(&mut a, KeyCode::Left);
    assert_eq!(a.left, 0);
}

/// Two rows of one JSON column, the second value twice the size of the
/// first.
fn json_app() -> App {
    let text = psql(&[
        vec!["id", "doc"],
        vec!["1", r#"{"a": 1}"#],
        vec!["2", r#"{"a": 1, "b": 2}"#],
    ]);

    let mut app = App::new(Document::from_str(&text).expect("a table"));
    app.view_height = 10;
    app.view_width = 40;
    app
}

#[test]
fn switches_json_between_its_two_forms() {
    let mut a = json_app();
    assert!(a.has_readable());

    // Folded: one line per row, and the column is as wide as the widest
    // value written on one line.
    assert_eq!((a.row_at(0), a.row_at(1)), ((0, 0), (1, 0)));
    assert_eq!(a.width(1), r#"{"a":1,"b":2}"#.len());

    press(&mut a, KeyCode::Char('x'));

    // Expanded: three lines for the one-key value, four for the two-key
    // one, and the column is only as wide as one indented line.
    assert_eq!(a.readable, [false, true]);
    assert_eq!((a.row_at(2), a.row_at(3)), ((0, 2), (1, 0)));
    assert_eq!(a.row_at(6), (1, 3));
    assert_eq!(a.width(1), r#"  "a": 1,"#.len());

    press(&mut a, KeyCode::Char('x'));

    assert_eq!(a.readable, [false, false]);
    assert_eq!(a.row_at(1), (1, 0));
}

/// One `x` has to move the JSON and the blobs at once, in opposite
/// directions: the JSON opens out over several lines while the blob
/// collapses from its hex to a digest.
#[test]
fn one_key_switches_json_and_blobs_together() {
    let long = format!("\\x{}", "ab".repeat(32));
    let short = format!("\\x{}", "cd".repeat(8));
    let text = psql(&[
        vec!["id", "doc", "blob"],
        vec!["1", r#"{"a": 1}"#, &long],
        vec!["2", r#"{"b": 22}"#, &short],
    ]);

    let mut a = App::new(Document::from_str(&text).expect("a table"));
    a.view_height = 10;
    a.view_width = 40;

    // Raw: compact JSON, and hex at two characters a byte plus the `\x`.
    assert_eq!(a.readable, [false, false, false]);
    assert_eq!((a.width(1), a.width(2)), (8, 66));
    assert_eq!(a.row_at(1), (1, 0));

    press(&mut a, KeyCode::Char('x'));

    // `id` has no second form, so it is left alone.
    assert_eq!(a.readable, [false, true, true]);
    // The JSON column is now as wide as `  "b": 22`, three lines a row.
    assert_eq!(a.width(1), 9);
    assert_eq!(a.row_at(3), (1, 0));
    // The blob column is down to `32 B  ` and eight characters of md5 —
    // from 66 columns to 14, and still one line tall.
    assert_eq!(a.width(2), 14);
    assert_eq!(a.row_height(&a.doc.rows[0]), 3);
}

#[test]
fn changing_form_keeps_the_top_row_in_place() {
    let mut a = json_app();
    a.view_height = 1;
    press(&mut a, KeyCode::Down);
    assert_eq!(a.row_at(a.top).0, 1);

    press(&mut a, KeyCode::Char('x'));

    // Row 1 starts on line 3 now, but it is still the row at the top.
    assert_eq!(a.top, 3);
    assert_eq!(a.row_at(a.top), (1, 0));
}

#[test]
fn resize_reclamps() {
    let mut a = app(25, 5);
    press(&mut a, KeyCode::End);
    a.view_height = 25;
    a.clamp();
    assert_eq!(a.top, 0);
}

#[test]
fn only_presses_count() {
    let mut a = app(25, 5);
    for kind in [KeyEventKind::Repeat, KeyEventKind::Release] {
        a.handle_key(KeyEvent {
            code: KeyCode::Down,
            kind,
            ctrl: false,
        });
        a.handle_key(KeyEvent {
            code: KeyCode::Char('q'),
            kind,
            ctrl: false,
        });
    }
    assert_eq!(a.top, 0);
    assert!(!a.should_quit);
}

#[test]
fn quits_on_q_escape_or_control_c() {
    for (code, ctrl) in [
        (KeyCode::Char('q'), false),
        (KeyCode::Esc, false),
        (KeyCode::Char('c'), true),
        (KeyCode::Char('d'), true),
    ] {
        let mut a = app(3, 5);
        a.handle_key(KeyEvent::new(code, ctrl));
        assert!(a.should_quit);
    }
}

#[test]
fn pages_by_a_screen_less_a_line() {
    let mut a = app(25, 5);
    press(&mut a, KeyCode::PageDown);
    assert_eq!(a.top, 9);
    press(&mut a, KeyCode::Char('d'));
    assert_eq!(a.top, 13);
    press(&mut a, KeyCode::Char('u'));
    assert_eq!(a.top, 9);
    press(&mut a, KeyCode::PageUp);
    assert_eq!(a.top, 0);
    press(&mut a, KeyCode::Char('G'));
    assert_eq!(a.top, 15);
    press(&mut a, KeyCode::Char('g'));
    assert_eq!(a.top, 0);
}

#[test]
fn every_line_falls_in_one_row() {
    let mut a = json_app();
    press(&mut a, KeyCode::Char('x'));
    // Three lines for the first row, four for the second.
    let rows: Vec<(usize, usize)> = (0..7).map(|l| a.row_at(l)).collect();
    assert_eq!(
        rows,
        [(0, 0), (0, 1), (0, 2), (1, 0), (1, 1), (1, 2), (1, 3)]
    );
    // Past the end, the last row.
    assert_eq!(a.row_at(9), (1, 6));
}

#[test]
fn no_column_at_or_past_the_right_edge() {
    let a = json_app();
    // `id` is 2 wide and `doc` 13: 2 + 2 + 1 + 13 + 2 columns in all.
    assert_eq!(a.table_width(), 20);
    assert_eq!(a.column_at(0).map(|c| c.name.as_str()), Some("id"));
    // The separator after `id` gives the column to its right.
    assert_eq!(a.column_at(4).map(|c| c.name.as_str()), Some("doc"));
    assert_eq!(a.column_at(19).map(|c| c.name.as_str()), Some("doc"));
    assert!(a.column_at(20).is_none());
}

#[test]
fn a_new_pager_shows_one_line_per_row() {
    let a = app(5, 3);
    for l in 0..5 {
        assert_eq!(a.row_at(l), (l, 0));
    }
    assert_eq!(a.width(0), 3);
    assert_eq!((a.top, a.left), (0, 0));
}
