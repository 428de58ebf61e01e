use flexar::diagnostic::{CompileErrFormatter, CompileErrorTemplate};
use flexar::lexer::{LexRule, Lexer, TokenKind};
use flexar::lext::Lext;
use flexar::parser::{
    parse_program, parse_symbol, Alt, Fallback, Grammar, ParseTree, Step, SymbolDef, TokenPat,
};
use flexar::parxt::Parxt;
use flexar::token_node::Token;

const LPAREN: u32 = 0;
const RPAREN: u32 = 1;
const PLUS: u32 = 2;
const MINUS: u32 = 3;
const MUL: u32 = 4;
const DIV: u32 = 5;
const LET: u32 = 6;
const EQ: u32 = 7;
const SEMI: u32 = 8;

const NUMBER: usize = 0;
const FACTOR: usize = 1;
const EXPR: usize = 2;
const STMT: usize = 3;
const SINGLE: usize = 4;

fn tpl(id: &'static str, cat: &'static str, segs: Vec<&'static str>) -> CompileErrorTemplate {
    CompileErrorTemplate::new(cat, CompileErrFormatter(id, segs))
}

fn e001() -> CompileErrorTemplate {
    tpl("E001", "unexpected character", vec!["character `", "` is unexpected"])
}
fn e003() -> CompileErrorTemplate {
    tpl("E003", "expected number", vec!["expected number, found `", "`."])
}
fn e004() -> CompileErrorTemplate {
    tpl("E004", "expected an expr", vec!["expected expr, found `", "`."])
}
fn e005() -> CompileErrorTemplate {
    tpl("E005", "expected operation", vec!["expected operation, found `", "`."])
}
fn e006() -> CompileErrorTemplate {
    tpl("E006", "unexpected token", vec!["unexpected token `", "`."])
}
fn e007() -> CompileErrorTemplate {
    tpl("E007", "unclosed parentheses", vec!["expected `)` to close parentheses"])
}
fn e008() -> CompileErrorTemplate {
    tpl("E008", "expected identifier in `let` statement", vec!["expected ident, found `", "`."])
}
fn e009() -> CompileErrorTemplate {
    tpl("E009", "expected `=` in `let` statement", vec!["expected `=`, found `", "`."])
}
fn e010() -> CompileErrorTemplate {
    tpl("E010", "expected `;` or operation", vec!["expected `;` or operation, found `", "`."])
}
fn e011() -> CompileErrorTemplate {
    tpl("E011", "number too large", vec!["integer `", "` is too large"])
}
fn internal() -> CompileErrorTemplate {
    tpl("I001", "internal parser defect", vec!["the parser cannot make progress here"])
}

fn math_lexer() -> Lexer {
    let letters = "abcdefghijklmnopqrstuvwxyzABCDEFGHIJKLMNOPQRSTUVWXYZ_";
    let cont = "abcdefghijklmnopqrstuvwxyzABCDEFGHIJKLMNOPQRSTUVWXYZ_-0123456789";
    let rules = vec![
        LexRule::Single('+', PLUS),
        LexRule::Single('(', LPAREN),
        LexRule::Single(')', RPAREN),
        LexRule::Single('-', MINUS),
        LexRule::Single('*', MUL),
        LexRule::Single('=', EQ),
        LexRule::Single(';', SEMI),
        LexRule::Skip(vec![' ', '\n', '\t']),
        LexRule::LineComment('/', '/', DIV),
        LexRule::Ident(
            letters.chars().collect(),
            cont.chars().collect(),
            vec![(String::from("let"), LET)],
        ),
        LexRule::Number(e011()),
    ];
    Lexer::new(rules, e001())
}

fn tok(pat: TokenPat, t: CompileErrorTemplate) -> Step {
    Step::Tok(pat, t)
}

fn math_grammar() -> Grammar {
    let number = SymbolDef {
        alts: vec![
            Alt { steps: vec![tok(TokenPat::AnyIdent, e003())] },
            Alt { steps: vec![tok(TokenPat::Fixed(PLUS), e003()), Step::Sym(NUMBER)] },
            Alt { steps: vec![tok(TokenPat::Fixed(MINUS), e003()), Step::Sym(NUMBER)] },
            Alt { steps: vec![tok(TokenPat::AnyInt, e003())] },
            Alt { steps: vec![tok(TokenPat::AnyFloat, e003())] },
            Alt {
                steps: vec![
                    tok(TokenPat::Fixed(LPAREN), e003()),
                    Step::Sym(EXPR),
                    tok(TokenPat::Fixed(RPAREN), e007()),
                ],
            },
        ],
        fallback: Fallback::Raise(e003()),
    };
    let factor = SymbolDef {
        alts: vec![
            Alt {
                steps: vec![
                    Step::Sym(NUMBER),
                    tok(TokenPat::Fixed(MUL), e005()),
                    Step::Sym(FACTOR),
                ],
            },
            Alt {
                steps: vec![
                    Step::Sym(NUMBER),
                    tok(TokenPat::Fixed(DIV), e005()),
                    Step::Sym(FACTOR),
                ],
            },
            Alt { steps: vec![Step::Sym(NUMBER)] },
        ],
        fallback: Fallback::Delegate(NUMBER),
    };
    let expr = SymbolDef {
        alts: vec![
            Alt {
                steps: vec![
                    Step::Sym(FACTOR),
                    tok(TokenPat::Fixed(PLUS), e005()),
                    Step::Sym(EXPR),
                ],
            },
            Alt {
                steps: vec![
                    Step::Sym(FACTOR),
                    tok(TokenPat::Fixed(MINUS), e005()),
                    Step::Sym(EXPR),
                ],
            },
            Alt { steps: vec![Step::Sym(FACTOR)] },
        ],
        fallback: Fallback::Raise(e004()),
    };
    let stmt = SymbolDef {
        alts: vec![
            Alt { steps: vec![Step::Sym(EXPR)] },
            Alt {
                steps: vec![
                    tok(TokenPat::Fixed(LET), e006()),
                    tok(TokenPat::AnyIdent, e008()),
                    tok(TokenPat::Fixed(EQ), e009()),
                    Step::Sym(EXPR),
                ],
            },
        ],
        fallback: Fallback::Raise(e006()),
    };
    let single = SymbolDef {
        alts: vec![
            Alt { steps: vec![Step::Sym(STMT), tok(TokenPat::Fixed(SEMI), e010())] },
        ],
        fallback: Fallback::Raise(e006()),
    };
    Grammar { symbols: vec![number, factor, expr, stmt, single], limit: internal() }
}

fn lex(contents: &str) -> Vec<Token<TokenKind>> {
    math_lexer()
        .tokenize(Lext::new(String::from("example"), contents))
        .unwrap()
}

#[test]
fn parses_a_chain_of_operations() {
    let tokens = lex("1 + 2 * 3;");
    let nodes = parse_program(&math_grammar(), &tokens, SINGLE, 64).unwrap();
    assert_eq!(nodes.len(), 1);
    // Single -> [Stmt, `;`]
    let (stmt, _semi) = match &nodes[0].node {
        ParseTree::Branch(sym, alt, _, ch) => {
            assert_eq!((*sym, *alt), (SINGLE, 0));
            assert_eq!(ch.len(), 2);
            (&ch[0], &ch[1])
        }
        _ => panic!("expected a Single node"),
    };
    // Stmt -> [Expr]; Expr -> [Factor, `+`, Expr]
    let expr = match stmt {
        ParseTree::Branch(sym, alt, _, ch) => {
            assert_eq!((*sym, *alt), (STMT, 0));
            &ch[0]
        }
        _ => panic!("expected a Stmt node"),
    };
    match expr {
        ParseTree::Branch(sym, alt, _, ch) => {
            assert_eq!((*sym, *alt), (EXPR, 0));
            assert_eq!(ch.len(), 3);
            // the right-hand side is `2 * 3`: an Expr around a Factor that
            // multiplied two numbers
            match &ch[2] {
                ParseTree::Branch(sym2, alt2, _, ch2) => {
                    assert_eq!((*sym2, *alt2), (EXPR, 2));
                    match &ch2[0] {
                        ParseTree::Branch(sym3, alt3, _, _) => {
                            assert_eq!((*sym3, *alt3), (FACTOR, 0));
                        }
                        _ => panic!("expected a Factor node"),
                    }
                }
                _ => panic!("expected an Expr node"),
            }
        }
        _ => panic!("expected an Expr node"),
    }
}

#[test]
fn parses_a_let_statement() {
    let tokens = lex("let a-value = 23 * 4;");
    let nodes = parse_program(&math_grammar(), &tokens, SINGLE, 64).unwrap();
    assert_eq!(nodes.len(), 1);
    let stmt = match &nodes[0].node {
        ParseTree::Branch(_, _, _, ch) => &ch[0],
        _ => panic!("expected a Single node"),
    };
    match stmt {
        ParseTree::Branch(sym, alt, _, ch) => {
            assert_eq!((*sym, *alt), (STMT, 1));
            assert_eq!(ch.len(), 4);
            match &ch[1] {
                ParseTree::Leaf(t) => {
                    assert_eq!(t.token_type, TokenKind::Ident(String::from("a-value")));
                }
                _ => panic!("expected an identifier leaf"),
            }
        }
        _ => panic!("expected a let statement"),
    }
}

#[test]
fn parses_several_statements() {
    let tokens = lex("1 + 2;\n3 * 4; // trailing comment\n5;");
    let nodes = parse_program(&math_grammar(), &tokens, SINGLE, 64).unwrap();
    assert_eq!(nodes.len(), 3);
}

#[test]
fn empty_token_stream_yields_no_nodes() {
    let tokens = lex("");
    let nodes = parse_program(&math_grammar(), &tokens, SINGLE, 64).unwrap();
    assert_eq!(nodes.len(), 0);
}

#[test]
fn unclosed_parenthesis_reports_the_paren_diagnostic() {
    let tokens = lex("( 1 ;");
    let mut parxt = Parxt::new(&tokens);
    let (depth, err) = parse_symbol(&math_grammar(), &mut parxt, NUMBER, 64).unwrap_err();
    assert_eq!(depth, 2);
    assert_eq!(err.id, "E007");
    assert_eq!(err.msg, "expected `)` to close parentheses");
}

#[test]
fn missing_eq_in_let_reports_with_the_found_token() {
    let tokens = lex("let x 5;");
    let mut parxt = Parxt::new(&tokens);
    let (depth, err) = parse_symbol(&math_grammar(), &mut parxt, STMT, 64).unwrap_err();
    assert_eq!(depth, 2);
    assert_eq!(err.id, "E009");
    assert_eq!(err.msg, "expected `=`, found `5`.");
}

#[test]
fn furthest_failure_wins() {
    // alternative A matches two steps before failing; alternative B fails at
    // its first step: the reported error is A's
    let a = 100u32;
    let b = 101u32;
    let c = 102u32;
    let q = 103u32;
    let g = Grammar {
        symbols: vec![SymbolDef {
            alts: vec![
                Alt {
                    steps: vec![
                        tok(TokenPat::Fixed(a), e006()),
                        tok(TokenPat::Fixed(b), e006()),
                        tok(TokenPat::Fixed(c), e005()),
                    ],
                },
                Alt { steps: vec![tok(TokenPat::Fixed(q), e004())] },
            ],
            fallback: Fallback::Raise(e003()),
        }],
        limit: internal(),
    };
    let rules = vec![
        LexRule::Single('a', a),
        LexRule::Single('b', b),
        LexRule::Single('c', c),
        LexRule::Single('q', q),
        LexRule::Skip(vec![' ', '\n']),
    ];
    let lexer = Lexer::new(rules, e001());
    let tokens = lexer
        .tokenize(Lext::new(String::from("t"), "a b q"))
        .unwrap();
    let mut parxt = Parxt::new(&tokens);
    let (depth, err) = parse_symbol(&g, &mut parxt, 0, 16).unwrap_err();
    assert_eq!(depth, 2);
    assert_eq!(err.id, "E005");
}

#[test]
fn no_progress_reports_the_fallback() {
    let tokens = lex("*");
    let mut parxt = Parxt::new(&tokens);
    let (depth, err) = parse_symbol(&math_grammar(), &mut parxt, NUMBER, 64).unwrap_err();
    assert_eq!(depth, 0);
    assert_eq!(err.id, "E003");
    assert_eq!(err.msg, "expected number, found `4`.");
}

#[test]
fn recursion_budget_exhaustion_is_an_internal_diagnostic() {
    let g = Grammar {
        symbols: vec![SymbolDef { alts: vec![], fallback: Fallback::Delegate(0) }],
        limit: internal(),
    };
    let tokens = lex("1;");
    let mut parxt = Parxt::new(&tokens);
    let (depth, err) = parse_symbol(&g, &mut parxt, 0, 5).unwrap_err();
    assert_eq!(depth, 0);
    assert_eq!(err.id, "I001");
}

#[test]
fn node_spans_grow_with_their_children() {
    let tokens = lex("(1 + 2);");
    let nodes = parse_program(&math_grammar(), &tokens, SINGLE, 64).unwrap();
    // the statement node starts at the opening parenthesis
    assert_eq!(nodes[0].position.0.ln, 1);
    assert_eq!(nodes[0].position.0.ln_idx, 1);
}
