use ansi_to_tui::IntoText;
use tabby::json::{colored, measure, plain, Layout};

/// The value the JSON tests lay out, as psql prints it.
const VALUE: &str = r#"{"kam": -999, "active": false}"#;

#[test]
fn lays_json_out_compact_or_pretty() {
    assert_eq!(plain(VALUE, Layout::Compact), r#"{"kam":-999,"active":false}"#);
    assert_eq!(
        plain(VALUE, Layout::Pretty),
        "{\n  \"kam\": -999,\n  \"active\": false\n}"
    );
}

#[test]
fn measures_what_it_lays_out() {
    assert_eq!(measure(VALUE, Layout::Compact), (1, 27));
    // Four lines, the widest being `  "active": false`.
    assert_eq!(measure(VALUE, Layout::Pretty), (4, 17));
}

#[test]
fn text_that_is_not_json_is_laid_out_as_it_stands() {
    assert_eq!(plain("{not json", Layout::Pretty), "{not json");
    assert_eq!(plain("{not json", Layout::Compact), "{not json");
    assert_eq!(measure("{not json", Layout::Pretty), (1, 9));
}

#[test]
fn an_empty_array_is_one_line_either_way() {
    assert_eq!(plain("[]", Layout::Pretty), "[]");
    assert_eq!(measure("[]", Layout::Pretty), (1, 2));
}

#[test]
fn nested_values_indent_by_two() {
    assert_eq!(
        plain(r#"{"a":[1,2]}"#, Layout::Pretty),
        "{\n  \"a\": [\n    1,\n    2\n  ]\n}"
    );
    assert_eq!(measure(r#"{"a":[1,2]}"#, Layout::Pretty), (6, 8));
}

#[test]
fn colours_without_changing_the_layout() {
    let text = colored(VALUE, Layout::Pretty).into_text().expect("ANSI text");
    let lines: Vec<String> = text
        .lines
        .iter()
        .map(|l| l.spans.iter().map(|s| s.content.as_ref()).collect())
        .collect();

    // Same text as `plain`, but split into spans that carry a style.
    assert_eq!(lines.join("\n"), plain(VALUE, Layout::Pretty));
    assert!(text.lines[1].spans.len() > 1, "expected coloured spans");
}

#[test]
fn colour_is_escapes_around_the_plain_text() {
    let c = colored(VALUE, Layout::Compact);
    assert_ne!(c, plain(VALUE, Layout::Compact));
    assert!(c.contains('\x1b'));
}
