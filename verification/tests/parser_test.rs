use lox_ast_rust::datastructs::expr::Expr;
use lox_ast_rust::datastructs::literal::Literal;
use lox_ast_rust::datastructs::token::{Token, TokenType};
use lox_ast_rust::parser::{tokens_well_formed, Parser};

fn tok(ty: TokenType, lexeme: &str) -> Token {
    Token::new(ty, lexeme.to_string(), None, 1)
}

fn num(v: f64) -> Token {
    Token::new(TokenType::Number, format!("{}", v), Some(Literal::Number(v.to_bits())), 1)
}

fn eof() -> Token {
    tok(TokenType::Eof, "")
}

fn number_of(e: &Expr) -> f64 {
    match e {
        Expr::Literal { value: Literal::Number(n), .. } => f64::from_bits(*n),
        _ => panic!("not a number literal"),
    }
}

#[test]
fn parses_precedence_and_numbers_nodes_in_completion_order() {
    // 1 + 2 * 3
    let tokens = vec![num(1.0), tok(TokenType::Plus, "+"), num(2.0), tok(TokenType::Star, "*"), num(3.0), eof()];
    let mut parser = Parser::new(tokens);
    let e = parser.parse().ok().unwrap();
    match &e {
        Expr::Binary { left, operator, right, id } => {
            assert_eq!(operator.token_type(), TokenType::Plus);
            assert_eq!(number_of(left), 1.0);
            assert_eq!(left.id(), 0);
            assert_eq!(*id, 4);
            match &**right {
                Expr::Binary { left, operator, right, id } => {
                    assert_eq!(operator.token_type(), TokenType::Star);
                    assert_eq!(number_of(left), 2.0);
                    assert_eq!(number_of(right), 3.0);
                    assert_eq!((left.id(), right.id(), *id), (1, 2, 3));
                }
                _ => panic!("expected a product"),
            }
        }
        _ => panic!("expected a sum"),
    }
}

#[test]
fn subtraction_is_left_associative() {
    // 1 - 2 - 3 is (1 - 2) - 3
    let tokens = vec![num(1.0), tok(TokenType::Minus, "-"), num(2.0), tok(TokenType::Minus, "-"), num(3.0), eof()];
    let e = Parser::new(tokens).parse().ok().unwrap();
    match &e {
        Expr::Binary { left, right, .. } => {
            assert_eq!(number_of(right), 3.0);
            match &**left {
                Expr::Binary { left, right, .. } => {
                    assert_eq!(number_of(left), 1.0);
                    assert_eq!(number_of(right), 2.0);
                }
                _ => panic!("expected (1 - 2) on the left"),
            }
        }
        _ => panic!("expected a difference"),
    }
}

#[test]
fn parses_ternary_grouping_unary_and_comma() {
    // (true ? -1 : !nil), 2
    let tokens = vec![
        tok(TokenType::LeftParen, "("),
        tok(TokenType::True, "true"),
        tok(TokenType::Question, "?"),
        tok(TokenType::Minus, "-"),
        num(1.0),
        tok(TokenType::Colon, ":"),
        tok(TokenType::Bang, "!"),
        tok(TokenType::Nil, "nil"),
        tok(TokenType::RightParen, ")"),
        tok(TokenType::Comma, ","),
        num(2.0),
        eof(),
    ];
    let e = Parser::new(tokens).parse().ok().unwrap();
    match &e {
        Expr::Binary { left, operator, right, id } => {
            assert_eq!(operator.token_type(), TokenType::Comma);
            assert_eq!(number_of(right), 2.0);
            assert_eq!(*id, 8);
            match &**left {
                Expr::Grouping { expression, id } => {
                    assert_eq!(*id, 6);
                    match &**expression {
                        Expr::Ternary { condition, then_branch, else_branch, id } => {
                            assert_eq!(*id, 5);
                            assert!(matches!(&**condition, Expr::Literal { value: Literal::Bool(true), id: 0 }));
                            assert!(matches!(&**then_branch, Expr::Unary { id: 2, .. }));
                            assert!(matches!(&**else_branch, Expr::Unary { id: 4, .. }));
                        }
                        _ => panic!("expected a ternary"),
                    }
                }
                _ => panic!("expected a grouping"),
            }
        }
        _ => panic!("expected a comma expression"),
    }
}

#[test]
fn stops_at_end_of_input_and_leaves_the_rest() {
    // 1 2 : the second number is not read
    let tokens = vec![num(1.0), num(2.0), eof()];
    let e = Parser::new(tokens).parse().ok().unwrap();
    assert_eq!(number_of(&e), 1.0);
}

#[test]
fn reports_missing_expression() {
    let tokens = vec![tok(TokenType::Plus, "+"), eof()];
    let err = Parser::new(tokens).parse().err().unwrap();
    assert_eq!(err.message, "Expected expression.");
    assert_eq!(err.token.token_type(), TokenType::Plus);
}

#[test]
fn reports_missing_right_paren_at_end() {
    let tokens = vec![tok(TokenType::LeftParen, "("), num(1.0), eof()];
    let err = Parser::new(tokens).parse().err().unwrap();
    assert_eq!(err.message, "Expect ')' after expression.");
    assert_eq!(err.token.token_type(), TokenType::Eof);
}

#[test]
fn reports_missing_colon_in_ternary() {
    let tokens = vec![tok(TokenType::True, "true"), tok(TokenType::Question, "?"), num(1.0), num(2.0), eof()];
    let err = Parser::new(tokens).parse().err().unwrap();
    assert_eq!(err.message, "Expect ':' after then branch of ternary expression.");
    assert_eq!(err.token.lexeme(), "2");
}

#[test]
fn empty_input_is_an_error_at_end() {
    let err = Parser::new(vec![eof()]).parse().err().unwrap();
    assert_eq!(err.message, "Expected expression.");
    assert_eq!(err.token.token_type(), TokenType::Eof);
}

#[test]
fn string_literal_is_parsed_with_its_value() {
    let t = Token::new(TokenType::String, "\"hi\"".to_string(), Some(Literal::String("hi".to_string())), 1);
    let e = Parser::new(vec![t, eof()]).parse().ok().unwrap();
    match e {
        Expr::Literal { value: Literal::String(s), id } => {
            assert_eq!(s, "hi");
            assert_eq!(id, 0);
        }
        _ => panic!("expected a string literal"),
    }
}

#[test]
fn synchronize_stops_after_semicolon() {
    // 1 2 ; 3
    let mut parser = Parser::new(vec![num(1.0), num(2.0), tok(TokenType::Semicolon, ";"), num(3.0), eof()]);
    parser.synchronize();
    let e = parser.parse().ok().unwrap();
    assert_eq!(number_of(&e), 3.0);
}

#[test]
fn synchronize_stops_before_statement_keyword() {
    // 1 2 var
    let mut parser = Parser::new(vec![num(1.0), num(2.0), tok(TokenType::Var, "var"), eof()]);
    parser.synchronize();
    let err = parser.parse().err().unwrap();
    assert_eq!(err.token.token_type(), TokenType::Var);
    parser.synchronize();
    let err = parser.parse().err().unwrap();
    assert_eq!(err.token.token_type(), TokenType::Eof);
}

#[test]
fn well_formed_tokens_need_end_and_literals() {
    assert!(tokens_well_formed(&vec![num(1.0), eof()]));
    assert!(!tokens_well_formed(&vec![num(1.0)]));
    assert!(!tokens_well_formed(&vec![tok(TokenType::Number, "1"), eof()]));
}

#[test]
fn expressions_compare_by_id() {
    let a = Expr::Literal { value: Literal::Nil, id: 7 };
    let b = Expr::Literal { value: Literal::Bool(true), id: 7 };
    let c = Expr::Literal { value: Literal::Nil, id: 8 };
    assert!(a == b);
    assert!(a != c);
}

#[test]
fn synchronize_needs_no_literal_values() {
    // var x print 1 ;  with the number token carrying no value
    let mut parser = Parser::new(vec![
        tok(TokenType::Var, "var"),
        tok(TokenType::Identifier, "x"),
        tok(TokenType::Print, "print"),
        tok(TokenType::Number, "1"),
        tok(TokenType::Semicolon, ";"),
        eof(),
    ]);
    parser.synchronize();
    let err = parser.parse().err().unwrap();
    assert_eq!(err.token.token_type(), TokenType::Print);
}

#[test]
fn failed_parse_stands_at_the_offending_token() {
    // ( 1 ;  fails at ';', where the parser is left, so synchronizing steps past it
    let mut parser = Parser::new(vec![
        tok(TokenType::LeftParen, "("),
        num(1.0),
        tok(TokenType::Semicolon, ";"),
        num(7.0),
        eof(),
    ]);
    let err = parser.parse().err().unwrap();
    assert_eq!(err.token.token_type(), TokenType::Semicolon);
    assert_eq!(err.message, "Expect ')' after expression.");
    parser.synchronize();
    assert_eq!(number_of(&parser.parse().ok().unwrap()), 7.0);
}

#[test]
fn advance_steps_over_tokens_and_stays_at_the_end() {
    let mut parser = Parser::new(vec![num(1.0), eof()]);
    assert_eq!(parser.advance().token_type(), TokenType::Number);
    // at the end of input it stays, and gives the token before the end
    assert_eq!(parser.advance().token_type(), TokenType::Number);
    let err = parser.parse().err().unwrap();
    assert_eq!(err.token.token_type(), TokenType::Eof);
}
