use flexar::diagnostic::{CompileErrFormatter, CompileErrorTemplate};
use flexar::lexer::{LexRule, Lexer, TokenKind};
use flexar::lext::Lext;
use flexar::token_node::Token;

const SLASH: u32 = 0;
const PLUS: u32 = 1;
const LPAREN: u32 = 2;
const RPAREN: u32 = 3;
const DOT: u32 = 4;
const COLON: u32 = 5;
const EEE: u32 = 6;
const EE: u32 = 7;
const EQ: u32 = 8;

fn e001() -> CompileErrorTemplate {
    CompileErrorTemplate::new(
        "invalid character",
        CompileErrFormatter("E001", vec!["`", "` is an invalid character"]),
    )
}

fn e002() -> CompileErrorTemplate {
    CompileErrorTemplate::new(
        "string not closed",
        CompileErrFormatter("E002", vec!["expected `\"` to close string"]),
    )
}

fn e003() -> CompileErrorTemplate {
    CompileErrorTemplate::new(
        "number too large",
        CompileErrFormatter("E003", vec!["integer `", "` is too large"]),
    )
}

fn example_lexer() -> Lexer {
    let rules = vec![
        LexRule::Single('/', SLASH),
        LexRule::Single('+', PLUS),
        LexRule::Single('(', LPAREN),
        LexRule::Single(')', RPAREN),
        LexRule::Single('.', DOT),
        LexRule::Single(':', COLON),
        LexRule::Skip(vec![' ', '\n', '\t']),
        LexRule::Literal(vec!['=', '=', '='], EEE),
        LexRule::Literal(vec!['=', '='], EE),
        LexRule::Single('=', EQ),
        LexRule::StrLit('"', e002()),
        LexRule::Number(e003()),
    ];
    Lexer::new(rules, e001())
}

fn lex(contents: &str) -> Vec<TokenKind> {
    let tokens = example_lexer()
        .tokenize(Lext::new(String::from("example"), contents))
        .unwrap();
    kinds(&tokens)
}

fn kinds(tokens: &Vec<Token<TokenKind>>) -> Vec<TokenKind> {
    tokens.iter().map(|t| t.token_type.clone()).collect()
}

#[test]
fn test_single() {
    let contents = "+  /\n(  .:) /";
    assert_eq!(
        lex(contents),
        vec![
            TokenKind::Fixed(PLUS),
            TokenKind::Fixed(SLASH),
            TokenKind::Fixed(LPAREN),
            TokenKind::Fixed(DOT),
            TokenKind::Fixed(COLON),
            TokenKind::Fixed(RPAREN),
            TokenKind::Fixed(SLASH),
        ]
    );
}

#[test]
fn test_multiple() {
    let contents = "=  ==\n=:  ====.==   =====";
    assert_eq!(
        lex(contents),
        vec![
            TokenKind::Fixed(EQ),
            TokenKind::Fixed(EE),
            TokenKind::Fixed(EQ),
            TokenKind::Fixed(COLON),
            TokenKind::Fixed(EEE),
            TokenKind::Fixed(EQ),
            TokenKind::Fixed(DOT),
            TokenKind::Fixed(EE),
            TokenKind::Fixed(EEE),
            TokenKind::Fixed(EE),
        ]
    );
}

#[test]
fn test_string() {
    let contents = "+  /\n:( \"hello world?\"). /";
    assert_eq!(
        lex(contents),
        vec![
            TokenKind::Fixed(PLUS),
            TokenKind::Fixed(SLASH),
            TokenKind::Fixed(COLON),
            TokenKind::Fixed(LPAREN),
            TokenKind::Str(String::from("hello world?")),
            TokenKind::Fixed(RPAREN),
            TokenKind::Fixed(DOT),
            TokenKind::Fixed(SLASH),
        ]
    );
}

#[test]
fn test_int() {
    let contents = "+  /\n:( 1234). /";
    assert_eq!(
        lex(contents),
        vec![
            TokenKind::Fixed(PLUS),
            TokenKind::Fixed(SLASH),
            TokenKind::Fixed(COLON),
            TokenKind::Fixed(LPAREN),
            TokenKind::Int(1234),
            TokenKind::Fixed(RPAREN),
            TokenKind::Fixed(DOT),
            TokenKind::Fixed(SLASH),
        ]
    );
}

#[test]
fn test_float() {
    let contents = "+  /\n:( 12.34). /";
    let got = lex(contents);
    assert_eq!(got.len(), 8);
    assert_eq!(got[0], TokenKind::Fixed(PLUS));
    assert_eq!(got[1], TokenKind::Fixed(SLASH));
    assert_eq!(got[2], TokenKind::Fixed(COLON));
    assert_eq!(got[3], TokenKind::Fixed(LPAREN));
    match &got[4] {
        TokenKind::Float(text) => {
            assert_eq!(text, "12.34");
            assert_eq!(text.parse::<f32>().unwrap(), 12.34);
        }
        other => panic!("expected a float numeral, got {:?}", other),
    }
    assert_eq!(got[5], TokenKind::Fixed(RPAREN));
    assert_eq!(got[6], TokenKind::Fixed(DOT));
    assert_eq!(got[7], TokenKind::Fixed(SLASH));
}

#[test]
fn simple_int_in_parens() {
    assert_eq!(
        lex("( 1234)"),
        vec![TokenKind::Fixed(LPAREN), TokenKind::Int(1234), TokenKind::Fixed(RPAREN)]
    );
}

#[test]
fn simple_float_in_parens() {
    assert_eq!(
        lex("( 12.34)"),
        vec![
            TokenKind::Fixed(LPAREN),
            TokenKind::Float(String::from("12.34")),
            TokenKind::Fixed(RPAREN),
        ]
    );
}

#[test]
fn second_dot_ends_numeral() {
    assert_eq!(
        lex("1.2.3"),
        vec![
            TokenKind::Float(String::from("1.2")),
            TokenKind::Fixed(DOT),
            TokenKind::Int(3),
        ]
    );
}

#[test]
fn trailing_dot_stays_in_numeral() {
    assert_eq!(
        lex("12. +"),
        vec![TokenKind::Float(String::from("12.")), TokenKind::Fixed(PLUS)]
    );
}

#[test]
fn unterminated_string_fails_at_end_of_file() {
    let contents = "+  /\n:( \"hello world?";
    let err = example_lexer()
        .tokenize(Lext::new(String::from("example"), contents))
        .unwrap_err();
    assert_eq!(err.id, "E002");
    assert_eq!(err.error_type, "string not closed");
    assert_eq!(err.msg, "expected `\"` to close string");
    // the diagnostic points at the end of the file, not at the opening quote
    assert_eq!(err.position.0.ln, 2);
    assert_eq!(err.position.0.ln_idx, 17);
    assert_eq!(err.position.1.ln, 2);
    assert_eq!(err.position.1.ln_idx, 17);
}

#[test]
fn no_rule_matches_fails_at_the_character() {
    let err = example_lexer()
        .tokenize(Lext::new(String::from("example"), "+ $"))
        .unwrap_err();
    assert_eq!(err.id, "E001");
    assert_eq!(err.msg, "`$` is an invalid character");
    assert_eq!(err.position.0.ln, 1);
    assert_eq!(err.position.0.ln_idx, 3);
}

#[test]
fn oversized_integer_is_a_diagnostic() {
    let err = example_lexer()
        .tokenize(Lext::new(String::from("example"), "99999999999999999999"))
        .unwrap_err();
    assert_eq!(err.id, "E003");
    assert_eq!(err.msg, "integer `99999999999999999999` is too large");
}

#[test]
fn largest_int_fits() {
    assert_eq!(lex("4294967295"), vec![TokenKind::Int(4294967295)]);
    let err = example_lexer()
        .tokenize(Lext::new(String::from("example"), "4294967296"))
        .unwrap_err();
    assert_eq!(err.id, "E003");
}

#[test]
fn empty_input_has_no_tokens() {
    assert_eq!(lex(""), Vec::<TokenKind>::new());
}

#[test]
fn string_may_span_lines() {
    assert_eq!(
        lex("\"ab\ncd\""),
        vec![TokenKind::Str(String::from("ab\ncd"))]
    );
}

#[test]
fn token_positions_cover_the_consumed_text() {
    let tokens = example_lexer()
        .tokenize(Lext::new(String::from("example"), "==  ="))
        .unwrap();
    assert_eq!(tokens.len(), 2);
    assert_eq!(tokens[0].position.0.ln_idx, 1);
    assert_eq!(tokens[0].position.1.ln_idx, 2);
    assert_eq!(tokens[1].position.0.ln_idx, 5);
    assert_eq!(tokens[1].position.1.ln_idx, 5);
}
