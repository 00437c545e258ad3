use lox_ast_rust::datastructs::literal::Literal;
use lox_ast_rust::datastructs::token::{Token, TokenType};
use lox_ast_rust::errors::LexError;
use lox_ast_rust::evaluator::{NumberOrder, Replies, Request};
use lox_ast_rust::lox::{decimal, Lox, RunStatus};

fn answer(replies: &mut Replies, request: Request) {
    let f = f64::from_bits;
    match request {
        Request::Add(a, b) => replies.numbers.push((f(a) + f(b)).to_bits()),
        Request::Subtract(a, b) => replies.numbers.push((f(a) - f(b)).to_bits()),
        Request::Multiply(a, b) => replies.numbers.push((f(a) * f(b)).to_bits()),
        Request::Divide(a, b) => replies.numbers.push((f(a) / f(b)).to_bits()),
        Request::Compare(a, b) => replies.orders.push(match f(a).partial_cmp(&f(b)) {
            Some(std::cmp::Ordering::Less) => NumberOrder::Less,
            Some(std::cmp::Ordering::Equal) => NumberOrder::Equal,
            Some(std::cmp::Ordering::Greater) => NumberOrder::Greater,
            None => NumberOrder::Unordered,
        }),
        Request::Format(a) => replies.texts.push(format!("{}", f(a))),
        Request::Show(a) => {
            let v = f(a);
            replies.texts.push(if v.fract() == 0.0 { format!("{:.0}", v) } else { format!("{}", v) })
        }
        Request::Iterate => replies.iterations += 1,
    }
}

fn run(lox: &mut Lox, tokens: Vec<Token>, lex_errors: Vec<LexError>) {
    let mut replies = Replies::new();
    loop {
        let tokens = tokens.iter().map(copy_token).collect();
        match lox.run(tokens, &lex_errors, &replies) {
            RunStatus::Finished => return,
            RunStatus::Pending(request) => answer(&mut replies, request),
        }
    }
}

fn copy_token(t: &Token) -> Token {
    let literal = match t.literal() {
        Some(Literal::Number(n)) => Some(Literal::Number(*n)),
        Some(Literal::String(s)) => Some(Literal::String(s.clone())),
        Some(Literal::Bool(b)) => Some(Literal::Bool(*b)),
        Some(Literal::Nil) => Some(Literal::Nil),
        Some(Literal::Callable(i)) => Some(Literal::Callable(*i)),
        Some(Literal::Class(i)) => Some(Literal::Class(*i)),
        Some(Literal::Instance(i)) => Some(Literal::Instance(*i)),
        None => None,
    };
    Token::new(t.token_type(), t.lexeme().to_string(), literal, t.line())
}

fn tok(ty: TokenType, lexeme: &str, line: usize) -> Token {
    Token::new(ty, lexeme.to_string(), None, line)
}

fn num(v: f64, line: usize) -> Token {
    Token::new(TokenType::Number, format!("{}", v), Some(Literal::Number(v.to_bits())), line)
}

#[test]
fn runs_an_expression_and_prints_its_value() {
    let mut lox = Lox::new();
    run(&mut lox, vec![num(1.0, 1), tok(TokenType::Plus, "+", 1), num(2.0, 1), tok(TokenType::Star, "*", 1), num(3.0, 1), tok(TokenType::Eof, "", 1)], vec![]);
    assert_eq!(lox.take_output(), vec!["7"]);
    assert!(lox.take_reports().is_empty());
    assert!(!lox.had_error());
    assert!(!lox.had_runtime_error());
}

#[test]
fn reports_lexing_errors_and_stops() {
    let mut lox = Lox::new();
    let errors = vec![
        LexError { line: 3, message: "Unexpected character.".to_string() },
        LexError { line: 12, message: "Unterminated string.".to_string() },
    ];
    run(&mut lox, vec![], errors);
    assert_eq!(lox.take_reports(), vec!["[line 3] Error: Unexpected character.", "[line 12] Error: Unterminated string."]);
    assert!(lox.take_output().is_empty());
    assert!(lox.had_error());
    assert!(!lox.had_runtime_error());
}

#[test]
fn reports_parse_error_at_end() {
    let mut lox = Lox::new();
    run(&mut lox, vec![tok(TokenType::LeftParen, "(", 1), num(1.0, 1), tok(TokenType::Eof, "", 2)], vec![]);
    assert_eq!(lox.take_reports(), vec!["[line 2] Error at end: Expect ')' after expression."]);
    assert!(lox.had_error());
    assert!(!lox.had_runtime_error());
}

#[test]
fn reports_parse_error_at_token() {
    let mut lox = Lox::new();
    run(&mut lox, vec![tok(TokenType::Star, "*", 7), tok(TokenType::Eof, "", 7)], vec![]);
    assert_eq!(lox.take_reports(), vec!["[line 7] Error at '*': Expected expression."]);
}

#[test]
fn reports_runtime_error() {
    let mut lox = Lox::new();
    run(&mut lox, vec![num(1.0, 5), tok(TokenType::Slash, "/", 5), num(0.0, 5), tok(TokenType::Eof, "", 5)], vec![]);
    assert_eq!(lox.take_reports(), vec!["[line 5] Error: Division by zero."]);
    assert!(lox.had_error());
    assert!(lox.had_runtime_error());
    lox.clear_errors();
    assert!(!lox.had_error());
    assert!(!lox.had_runtime_error());
}

#[test]
fn pending_run_reports_nothing() {
    let mut lox = Lox::new();
    let status = lox.run(vec![num(1.0, 1), tok(TokenType::Plus, "+", 1), num(1.0, 1), tok(TokenType::Eof, "", 1)], &vec![], &Replies::new());
    assert!(matches!(status, RunStatus::Pending(Request::Add(_, _))));
    assert!(lox.take_output().is_empty());
    assert!(lox.take_reports().is_empty());
}

#[test]
fn decimal_numerals() {
    assert_eq!(decimal(0), "0");
    assert_eq!(decimal(7), "7");
    assert_eq!(decimal(10), "10");
    assert_eq!(decimal(1234509), "1234509");
    assert_eq!(decimal(usize::MAX), usize::MAX.to_string());
}

#[test]
fn decimal_reads_back_as_the_number() {
    for n in [0usize, 1, 9, 10, 99, 100, 65535, 4294967296] {
        assert_eq!(decimal(n).parse::<usize>().unwrap(), n);
    }
}
