use lichen::diag::{Diag, Stage};
use lichen::render::render;

#[test]
fn renders_the_offending_line_with_a_caret() {
    // `y` is at line 1, column 6 — the caret lands under it.
    let diag = Diag::new(Stage::Resolve, (1, 6), "unresolved name 'y'".to_string());
    let out = render("x => y", &diag);
    assert_eq!(
        out,
        "error: unresolved name 'y'\n  --> 1:6\n   |\n 1 | x => y\n   |      ^\n"
    );
}

#[test]
fn a_spanless_diagnostic_has_no_caret() {
    let diag = Diag {
        span: None,
        message: "internal".to_string(),
        stage: Stage::Check,
    };
    assert_eq!(render("x", &diag), "error: internal\n");
}

// --- beyond the original's cases -------------------------------------------

#[test]
fn a_later_line_is_found_and_numbers_print_in_decimal() {
    let diag = Diag::new(Stage::Parse, (12, 3), "oops".to_string());
    let mut source = String::new();
    for i in 1..=12 {
        source.push_str(&format!("line{}\n", i));
    }
    assert_eq!(
        render(&source, &diag),
        "error: oops\n  --> 12:3\n   |\n 12 | line12\n   |   ^\n"
    );
}

#[test]
fn a_line_past_the_end_has_no_caret() {
    let diag = Diag::new(Stage::Lex, (3, 1), "eof".to_string());
    assert_eq!(render("a\nb\n", &diag), "error: eof\n  --> 3:1\n   |\n");
}

#[test]
fn a_crlf_line_loses_its_carriage_return() {
    let diag = Diag::new(Stage::Lex, (1, 2), "m".to_string());
    assert_eq!(
        render("ab\r\ncd", &diag),
        "error: m\n  --> 1:2\n   |\n 1 | ab\n   |  ^\n"
    );
}

#[test]
fn line_and_column_zero_point_at_the_first_line() {
    let diag = Diag::new(Stage::Lex, (0, 0), "m".to_string());
    assert_eq!(
        render("xy", &diag),
        "error: m\n  --> 0:0\n   |\n 0 | xy\n   | ^\n"
    );
}
