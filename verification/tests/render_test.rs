use flexar::cursor::Position;
use flexar::diagnostic::{CompileErrFormatter, CompileError, CompileErrorTemplate};

fn diag(id: &'static str, cat: &'static str, msg: &str, pos: Position) -> CompileError {
    CompileError::new(id, cat, String::from(msg), pos)
}

#[test]
fn short_line_is_quoted_unchanged() {
    let pos = Position::new_oneline("f", "hello", Some((2, 4)));
    let e = diag("E001", "bad thing", "oops", pos);
    let out = e.render();
    assert_eq!(
        out,
        "\nerror[E001]: bad thing\n --> f:1:2\n1 | hello\n  |  ^^^ oops\n <--"
    );
}

#[test]
fn long_line_is_trimmed_on_both_sides_and_the_caret_aligns() {
    let line = "012345678901234567890123456789012345678901234567890123456789";
    let pos = Position::new_oneline("src", line, Some((30, 33)));
    let e = diag("E009", "expected thing", "mid", pos);
    let out = e.render();
    assert_eq!(
        out,
        "\nerror[E009]: expected thing\n --> src:1:30\n1 | ...901234567890123456789012345678901234567890123...\n  |                        ^^^^ mid\n <--"
    );
    // the first caret stands under the same character the span starts at:
    // the span starts at column 30 (the character `9`), and in the trimmed
    // quote that character sits 23 places after `1 | `, matching the arrow.
    assert_eq!(line.as_bytes()[29], b'9');
}

#[test]
fn multi_line_span_quotes_only_the_first_line() {
    // a span that runs past the end of its first line: quote the first line,
    // mark the break, and underline to the end of that line
    let start = Position::new_oneline("f", "abcde", Some((3, 3)));
    let endp = Position::new_oneline("f", "x", Some((1, 1)));
    let mut e = diag("E007", "unclosed", "stop", start.combine(&endp));
    e.position.1.ln = 2;
    let out = e.render();
    assert_eq!(
        out,
        "\nerror[E007]: unclosed\n --> f:1:3\n1 | abcde\\n...\n  |   ^^^^^^^^ stop\n <--"
    );
}

#[test]
fn message_newlines_are_shown_escaped() {
    let pos = Position::new_oneline("f", "q", Some((1, 1)));
    let e = diag("EX", "cat", "a\nb", pos);
    assert_eq!(
        e.render(),
        "\nerror[EX]: cat\n --> f:1:1\n1 | q\n  | ^ a\\nb\n <--"
    );
}

#[test]
fn try_render_agrees_with_render() {
    let pos = Position::new_oneline("f", "hello", Some((2, 4)));
    let e = diag("E001", "bad thing", "oops", pos);
    let direct = e.render();
    assert_eq!(e.try_render().unwrap(), direct);
}

#[test]
fn try_render_refuses_a_backwards_span() {
    let pos = Position::new_oneline("f", "hello", Some((4, 2)));
    let e = diag("E001", "bad thing", "oops", pos);
    assert!(e.try_render().is_none());
}

#[test]
fn lexer_diagnostics_render_end_to_end() {
    let lexer = flexar::lexer::Lexer::new(
        vec![
            flexar::lexer::LexRule::Single('+', 0),
            flexar::lexer::LexRule::Skip(vec![' ', '\n']),
        ],
        CompileErrorTemplate::new(
            "invalid character",
            CompileErrFormatter("E001", vec!["`", "` is an invalid character"]),
        ),
    );
    let err = lexer
        .tokenize(flexar::lext::Lext::new(String::from("example"), "+ $"))
        .unwrap_err();
    assert_eq!(
        err.try_render().unwrap(),
        "\nerror[E001]: invalid character\n --> example:1:3\n1 | + $\n  |   ^ `$` is an invalid character\n <--"
    );
}

#[test]
fn formatter_splices_arguments_between_segments() {
    let fmt = CompileErrFormatter("E005", vec!["expected `", "`, found `", "`."]);
    let msg = fmt.format(&[String::from("+"), String::from(";")]);
    assert_eq!(msg, "expected `+`, found `;`.");
}

#[test]
fn wrong_arity_never_reaches_the_renderer() {
    // a template with two segments has arity two: it takes exactly one
    // argument; anything else is an internal defect and yields nothing
    let tpl = CompileErrorTemplate::new(
        "unexpected character",
        CompileErrFormatter("E001", vec!["character `", "` is unexpected"]),
    );
    let pos = Position::new_oneline("f", "x", Some((1, 1)));
    assert!(tpl.instantiate(&[], pos).is_none());

    let pos2 = Position::new_oneline("f", "x", Some((1, 1)));
    let two = [String::from("a"), String::from("b")];
    assert!(tpl.instantiate(&two, pos2).is_none());

    let pos3 = Position::new_oneline("f", "x", Some((1, 1)));
    let one = [String::from("$")];
    let e = tpl.instantiate(&one, pos3).unwrap();
    assert_eq!(e.id, "E001");
    assert_eq!(e.msg, "character `$` is unexpected");
}

#[test]
fn zero_argument_template() {
    let fmt = CompileErrFormatter("E002", vec!["expected `\"` to close string"]);
    assert_eq!(fmt.try_format(&[]).unwrap(), "expected `\"` to close string");
    assert!(fmt.try_format(&[String::from("x")]).is_none());
}
