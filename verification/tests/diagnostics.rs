//! Diagnostics, and what errors say.

use helix::diag::render;
use helix::error::{LineMap, RunError, RunErrorKind, Span};

#[test]
fn caret_lands_under_the_span() {
    // `y` sits 9 chars into line 2 (byte offset 21): column 10, 1-based.
    let src = "fn main() {\n    let x = y;\n}";
    let out = render(src, "t.hx", Span { start: 21, end: 22 }, "undeclared variable 'y'");
    assert!(out.contains("t.hx:2:10"), "{out}");
    assert!(out.contains("^"), "{out}");
    assert!(out.contains("undeclared variable 'y'"), "{out}");
}

#[test]
fn diagnostics_in_full() {
    let src = "fn main() {\n    let x = y;\n}";
    assert_eq!(
        render(src, "t.hx", Span { start: 24, end: 25 }, "undeclared"),
        "error: undeclared\n  --> t.hx:2:13\n   |\n   2 |     let x = y;\n   |             ^\n"
    );
    // characters count, not bytes; returns are not shown; carets end one behind the line
    let src = "x\r\n\u{e9}\u{e9} = zz\r\r\n";
    assert_eq!(
        render(src, "f", Span { start: 10, end: 99 }, "m"),
        "error: m\n  --> f:2:6\n   |\n   2 | \u{e9}\u{e9} = zz\n   |      ^^^\n"
    );
    // past the end
    assert_eq!(
        render("ab", "f", Span { start: 9, end: 9 }, "m"),
        "error: m\n  --> f:1:3\n   |\n   1 | ab\n   |   ^\n"
    );
}

#[test]
fn line_numbers_are_one_based_and_split_on_newlines() {
    let src = "fn main() {\n  let x = 1;\n  let y = x / z;\n}\n";
    let m = LineMap::new(src);
    // Newlines at offsets 11, 24, 41, 43 -> starts at 0, 12, 25, 42, 44.
    assert_eq!(m.starts(), &[0, 12, 25, 42, 44]);
    assert_eq!(m.line_of(0), 1); // 'f' of fn
    assert_eq!(m.line_of(11), 1); // the newline itself stays on its own line
    assert_eq!(m.line_of(12), 2);
    assert_eq!(m.line_of(24), 2);
    assert_eq!(m.line_of(25), 3);
    assert_eq!(m.line_of(41), 3);
    assert_eq!(m.line_of(42), 4);
}

#[test]
fn error_renders_spec_message() {
    // "fn main() {\n    let q = 1 / 0;\n}\n": newline offsets are 11 and
    // 30, so offset 20 (`/`) sits on line 2.
    let e = RunError::new(RunErrorKind::DivByZero, Span { start: 20, end: 25 });
    let src = "fn main() {\n    let q = 1 / 0;\n}\n";
    assert_eq!(
        e.render(src),
        "runtime error: integer division by zero at line 2"
    );
    assert_eq!(
        e.text(),
        "runtime error: integer division by zero (at byte offset 20)"
    );
}

#[test]
fn bounds_message_quotes_index_and_length() {
    let e = RunError::new(
        RunErrorKind::Bounds { len: 4, idx: -1 },
        Span { start: 0, end: 1 },
    );
    assert_eq!(
        e.render_with(None),
        "runtime error: index -1 out of bounds for array of length 4 (at byte offset 0)"
    );
}
