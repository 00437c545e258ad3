use lox_ast_rust::datastructs::expr::Expr;
use lox_ast_rust::datastructs::literal::Literal;
use lox_ast_rust::datastructs::stmt::Stmt;
use lox_ast_rust::datastructs::token::{Token, TokenType};
use lox_ast_rust::evaluator::{Evaluator, NumberOrder, Outcome, Replies, Request};

fn answer(replies: &mut Replies, request: Request) {
    let f = f64::from_bits;
    match request {
        Request::Add(a, b) => replies.numbers.push((f(a) + f(b)).to_bits()),
        Request::Subtract(a, b) => replies.numbers.push((f(a) - f(b)).to_bits()),
        Request::Multiply(a, b) => replies.numbers.push((f(a) * f(b)).to_bits()),
        Request::Divide(a, b) => replies.numbers.push((f(a) / f(b)).to_bits()),
        Request::Compare(a, b) => replies.orders.push(match f(a).partial_cmp(&f(b)) {
            Some(std::cmp::Ordering::Less) => NumberOrder::Less,
            Some(std::cmp::Ordering::Equal) => NumberOrder::Equal,
            Some(std::cmp::Ordering::Greater) => NumberOrder::Greater,
            None => NumberOrder::Unordered,
        }),
        Request::Format(a) => replies.texts.push(format!("{}", f(a))),
        Request::Show(a) => {
            let v = f(a);
            replies.texts.push(if v.fract() == 0.0 { format!("{:.0}", v) } else { format!("{}", v) })
        }
        Request::Iterate => replies.iterations += 1,
    }
}

fn interpret<'a>(evaluator: &mut Evaluator<'a>, statements: &'a Vec<Stmt>) -> (Vec<String>, Result<(), String>) {
    let mut replies = Replies::new();
    loop {
        let run = evaluator.interpret(statements, &replies);
        match run.outcome {
            Outcome::Pending(request) => answer(&mut replies, request),
            Outcome::Done(()) => return (run.output, Ok(())),
            Outcome::Failed(e) => return (run.output, Err(e.message)),
        }
    }
}

fn run(statements: Vec<Stmt>) -> (Vec<String>, Result<(), String>) {
    interpret(&mut Evaluator::new(), &statements)
}

fn op(ty: TokenType, lexeme: &str) -> Token {
    Token::new(ty, lexeme.to_string(), None, 1)
}

fn ident(s: &str) -> Token {
    op(TokenType::Identifier, s)
}

fn num(v: f64) -> Expr {
    Expr::Literal { value: Literal::Number(v.to_bits()), id: 0 }
}

fn string(s: &str) -> Expr {
    Expr::Literal { value: Literal::String(s.to_string()), id: 0 }
}

fn lit(value: Literal) -> Expr {
    Expr::Literal { value, id: 0 }
}

fn bin(left: Expr, ty: TokenType, lexeme: &str, right: Expr) -> Expr {
    Expr::Binary { left: Box::new(left), operator: op(ty, lexeme), right: Box::new(right), id: 0 }
}

fn var(s: &str) -> Expr {
    Expr::Variable { name: ident(s), id: 0 }
}

fn assign(s: &str, value: Expr) -> Expr {
    Expr::Assign { name: ident(s), value: Box::new(value), id: 0 }
}

fn print(e: Expr) -> Stmt {
    Stmt::Print { expression: Box::new(e) }
}

fn declare(s: &str, e: Expr) -> Stmt {
    Stmt::Var { name: ident(s), initializer: Box::new(e) }
}

fn expression(e: Expr) -> Stmt {
    Stmt::Expression { expression: Box::new(e) }
}

fn printed(e: Expr) -> Result<String, String> {
    let (out, result) = run(vec![print(e)]);
    result.map(|_| out[0].clone())
}

#[test]
fn test_evaluator_direct_literal() {
    let stmt = Stmt::Print {
        expression: Box::new(Expr::Literal { value: Literal::Number(42.0f64.to_bits()), id: 1 }),
    };
    let program = vec![stmt];
    let mut evaluator = Evaluator::new();
    assert!(interpret(&mut evaluator, &program).1.is_ok());
}

#[test]
fn test_evaluator_direct_binary() {
    let mut evaluator = Evaluator::new();
    let lhs = Expr::Literal { value: Literal::Number(2.0f64.to_bits()), id: 1 };
    let rhs = Expr::Literal { value: Literal::Number(3.0f64.to_bits()), id: 2 };
    let op = Token::new(TokenType::Plus, "+".to_string(), None, 0);
    let expr = Expr::Binary { left: Box::new(lhs), operator: op, right: Box::new(rhs), id: 3 };
    let program = vec![Stmt::Print { expression: Box::new(expr) }];
    assert!(interpret(&mut evaluator, &program).1.is_ok());
}

#[test]
fn prints_numbers_booleans_nil_and_strings() {
    let (out, result) = run(vec![
        print(num(42.0)),
        print(num(2.5)),
        print(lit(Literal::Bool(true))),
        print(lit(Literal::Nil)),
        print(string("hi")),
    ]);
    assert!(result.is_ok());
    assert_eq!(out, vec!["42", "2.5", "true", "nil", "hi"]);
}

#[test]
fn arithmetic_follows_the_tree() {
    // 1 + 2 * 3
    let e = bin(num(1.0), TokenType::Plus, "+", bin(num(2.0), TokenType::Star, "*", num(3.0)));
    assert_eq!(printed(e), Ok("7".to_string()));
    let e = bin(num(7.0), TokenType::Minus, "-", num(10.0));
    assert_eq!(printed(e), Ok("-3".to_string()));
    let e = bin(num(1.0), TokenType::Slash, "/", num(4.0));
    assert_eq!(printed(e), Ok("0.25".to_string()));
    let e = Expr::Unary { operator: op(TokenType::Minus, "-"), right: Box::new(num(5.0)), id: 0 };
    assert_eq!(printed(e), Ok("-5".to_string()));
}

#[test]
fn division_by_zero_is_an_error() {
    let e = bin(num(1.0), TokenType::Slash, "/", num(0.0));
    assert_eq!(printed(e), Err("Division by zero.".to_string()));
    let e = bin(num(1.0), TokenType::Slash, "/", num(-0.0));
    assert_eq!(printed(e), Err("Division by zero.".to_string()));
}

#[test]
fn addition_type_error() {
    let e = bin(lit(Literal::Bool(true)), TokenType::Plus, "+", num(1.0));
    assert_eq!(printed(e), Err("Operands must be two numbers or atleast one string.".to_string()));
}

#[test]
fn other_operator_type_errors() {
    let e = bin(string("a"), TokenType::Minus, "-", num(1.0));
    assert_eq!(printed(e), Err("Operands must be numbers.".to_string()));
    let e = bin(string("a"), TokenType::Less, "<", num(1.0));
    assert_eq!(printed(e), Err("Operands must be two numbers or two strings.".to_string()));
    let e = Expr::Unary { operator: op(TokenType::Minus, "-"), right: Box::new(string("a")), id: 0 };
    assert_eq!(printed(e), Err("Operand must be a number.".to_string()));
    let e = bin(num(1.0), TokenType::Comma, ",", num(2.0));
    assert_eq!(printed(e), Err("Unknown binary operator.".to_string()));
    let e = Expr::Unary { operator: op(TokenType::Plus, "+"), right: Box::new(num(1.0)), id: 0 };
    assert_eq!(printed(e), Err("Unknown unary operator.".to_string()));
}

#[test]
fn comparing_nan_is_an_error() {
    let e = bin(num(f64::NAN), TokenType::Less, "<", num(1.0));
    assert_eq!(printed(e), Err("Operands must be two numbers or two strings.".to_string()));
}

#[test]
fn strings_join_with_strings_and_numbers() {
    assert_eq!(printed(bin(string("ab"), TokenType::Plus, "+", string("cd"))), Ok("abcd".to_string()));
    assert_eq!(printed(bin(string("n="), TokenType::Plus, "+", num(3.0))), Ok("n=3".to_string()));
    assert_eq!(printed(bin(num(1.5), TokenType::Plus, "+", string("!"))), Ok("1.5!".to_string()));
}

#[test]
fn comparisons_of_numbers_and_strings() {
    assert_eq!(printed(bin(num(1.0), TokenType::Less, "<", num(2.0))), Ok("true".to_string()));
    assert_eq!(printed(bin(num(2.0), TokenType::LessEqual, "<=", num(2.0))), Ok("true".to_string()));
    assert_eq!(printed(bin(num(2.0), TokenType::Greater, ">", num(2.0))), Ok("false".to_string()));
    assert_eq!(printed(bin(num(3.0), TokenType::GreaterEqual, ">=", num(2.0))), Ok("true".to_string()));
    assert_eq!(printed(bin(string("apple"), TokenType::Less, "<", string("b"))), Ok("true".to_string()));
    assert_eq!(printed(bin(string("ab"), TokenType::Greater, ">", string("a"))), Ok("true".to_string()));
}

#[test]
fn equality_of_values() {
    assert_eq!(printed(bin(num(1.0), TokenType::EqualEqual, "==", num(2.0))), Ok("false".to_string()));
    assert_eq!(printed(bin(num(0.0), TokenType::EqualEqual, "==", num(-0.0))), Ok("true".to_string()));
    assert_eq!(printed(bin(num(f64::NAN), TokenType::EqualEqual, "==", num(f64::NAN))), Ok("false".to_string()));
    assert_eq!(printed(bin(lit(Literal::Nil), TokenType::EqualEqual, "==", lit(Literal::Nil))), Ok("true".to_string()));
    assert_eq!(printed(bin(string("a"), TokenType::BangEqual, "!=", string("a"))), Ok("false".to_string()));
    assert_eq!(printed(bin(num(1.0), TokenType::EqualEqual, "==", string("1"))), Ok("false".to_string()));
}

#[test]
fn truthiness_of_bang() {
    let not = |e: Expr| Expr::Unary { operator: op(TokenType::Bang, "!"), right: Box::new(e), id: 0 };
    assert_eq!(printed(not(lit(Literal::Nil))), Ok("true".to_string()));
    assert_eq!(printed(not(lit(Literal::Bool(false)))), Ok("true".to_string()));
    assert_eq!(printed(not(num(0.0))), Ok("false".to_string()));
    assert_eq!(printed(not(string(""))), Ok("false".to_string()));
}

#[test]
fn ternary_takes_then_branch_only_for_true() {
    let t = |c: Expr| Expr::Ternary { condition: Box::new(c), then_branch: Box::new(num(1.0)), else_branch: Box::new(num(2.0)), id: 0 };
    assert_eq!(printed(t(lit(Literal::Bool(true)))), Ok("1".to_string()));
    assert_eq!(printed(t(lit(Literal::Bool(false)))), Ok("2".to_string()));
    assert_eq!(printed(t(num(1.0))), Ok("2".to_string()));
}

#[test]
fn logical_operators_give_an_operand() {
    let logical = |l: Expr, ty: TokenType, r: Expr| Expr::Logical { left: Box::new(l), operator: op(ty, "op"), right: Box::new(r), id: 0 };
    assert_eq!(printed(logical(lit(Literal::Nil), TokenType::Or, string("yes"))), Ok("yes".to_string()));
    assert_eq!(printed(logical(num(1.0), TokenType::Or, string("yes"))), Ok("1".to_string()));
    assert_eq!(printed(logical(lit(Literal::Bool(false)), TokenType::And, var("undefined"))), Ok("false".to_string()));
    assert_eq!(printed(logical(lit(Literal::Bool(true)), TokenType::And, num(2.0))), Ok("2".to_string()));
}

#[test]
fn variables_are_declared_assigned_and_read() {
    let (out, result) = run(vec![
        declare("x", num(1.0)),
        expression(assign("x", bin(var("x"), TokenType::Plus, "+", num(1.0)))),
        print(var("x")),
    ]);
    assert!(result.is_ok());
    assert_eq!(out, vec!["2"]);
}

#[test]
fn undefined_variable_error() {
    let (out, result) = run(vec![print(num(1.0)), print(var("nosuch"))]);
    assert_eq!(out, vec!["1"]);
    assert_eq!(result, Err("Undefined variable 'nosuch'.".to_string()));
    let (_, result) = run(vec![expression(assign("nosuch", num(1.0)))]);
    assert_eq!(result, Err("Undefined variable 'nosuch'.".to_string()));
}

#[test]
fn blocks_scope_their_variables() {
    let (out, result) = run(vec![
        declare("x", num(0.0)),
        Stmt::Block { statements: vec![declare("x", num(1.0)), print(var("x")), declare("y", num(5.0))] },
        print(var("x")),
        print(var("y")),
    ]);
    assert_eq!(out, vec!["1", "0"]);
    assert_eq!(result, Err("Undefined variable 'y'.".to_string()));
}

#[test]
fn assignment_in_block_reaches_outer_variable() {
    let (out, result) = run(vec![
        declare("x", num(0.0)),
        Stmt::Block { statements: vec![expression(assign("x", num(9.0)))] },
        print(var("x")),
    ]);
    assert!(result.is_ok());
    assert_eq!(out, vec!["9"]);
}

#[test]
fn if_picks_a_branch_by_truthiness() {
    let if_stmt = |c: Expr| Stmt::If {
        condition: Box::new(c),
        then_branch: Box::new(print(num(1.0))),
        else_branch: Some(Box::new(print(num(2.0)))),
    };
    let (out, result) = run(vec![if_stmt(lit(Literal::Bool(true))), if_stmt(lit(Literal::Nil)), if_stmt(num(0.0))]);
    assert!(result.is_ok());
    assert_eq!(out, vec!["1", "2", "1"]);
}

#[test]
fn while_loop_counts() {
    // var i = 0; while (i < 3) { print i; i = i + 1; }
    let (out, result) = run(vec![
        declare("i", num(0.0)),
        Stmt::While {
            condition: Box::new(bin(var("i"), TokenType::Less, "<", num(3.0))),
            body: Box::new(Stmt::Block {
                statements: vec![print(var("i")), expression(assign("i", bin(var("i"), TokenType::Plus, "+", num(1.0))))],
            }),
        },
        print(var("i")),
    ]);
    assert!(result.is_ok());
    assert_eq!(out, vec!["0", "1", "2", "3"]);
}

fn call(callee: Expr, args: Vec<Expr>) -> Expr {
    Expr::Call { callee: Box::new(callee), paren: op(TokenType::RightParen, ")"), arguments: args, id: 0 }
}

fn fun(name: &str, params: &[&str], body: Vec<Stmt>) -> Stmt {
    Stmt::Function { name: ident(name), params: params.iter().map(|p| ident(p)).collect(), body }
}

fn ret(e: Expr) -> Stmt {
    Stmt::Return { keyword: op(TokenType::Return, "return"), value: Some(Box::new(e)) }
}

fn block(statements: Vec<Stmt>) -> Stmt {
    Stmt::Block { statements }
}

fn if_else(c: Expr, then_branch: Stmt, else_branch: Option<Stmt>) -> Stmt {
    Stmt::If { condition: Box::new(c), then_branch: Box::new(then_branch), else_branch: else_branch.map(Box::new) }
}

fn while_loop(c: Expr, body: Stmt) -> Stmt {
    Stmt::While { condition: Box::new(c), body: Box::new(body) }
}

fn logical(l: Expr, ty: TokenType, lexeme: &str, r: Expr) -> Expr {
    Expr::Logical { left: Box::new(l), operator: op(ty, lexeme), right: Box::new(r), id: 0 }
}

#[test]
fn test_literal_expression_runs() {
    // 42;
    assert!(run(vec![expression(num(42.0))]).1.is_ok());
}

#[test]
fn test_print_runs() {
    // print 42;
    let (out, result) = run(vec![print(num(42.0))]);
    assert!(result.is_ok());
    assert_eq!(out, vec!["42"]);
}

#[test]
fn test_var_declaration_runs() {
    // var x = 10;
    assert!(run(vec![declare("x", num(10.0))]).1.is_ok());
}

#[test]
fn test_var_assign_runs() {
    // var x = 1; x = 2;
    assert!(run(vec![declare("x", num(1.0)), expression(assign("x", num(2.0)))]).1.is_ok());
}

#[test]
fn test_binary_arithmetic_runs() {
    // print 1 + 2 * 3;
    let e = bin(num(1.0), TokenType::Plus, "+", bin(num(2.0), TokenType::Star, "*", num(3.0)));
    assert_eq!(printed(e), Ok("7".to_string()));
}

#[test]
fn test_comparison_runs() {
    // print 1 < 2;
    assert_eq!(printed(bin(num(1.0), TokenType::Less, "<", num(2.0))), Ok("true".to_string()));
}

#[test]
fn test_equality_runs() {
    // print 1 == 2;
    assert_eq!(printed(bin(num(1.0), TokenType::EqualEqual, "==", num(2.0))), Ok("false".to_string()));
}

#[test]
fn test_logical_and_runs() {
    // print true and false;
    let e = logical(lit(Literal::Bool(true)), TokenType::And, "and", lit(Literal::Bool(false)));
    assert_eq!(printed(e), Ok("false".to_string()));
}

#[test]
fn test_logical_or_runs() {
    // print true or false;
    let e = logical(lit(Literal::Bool(true)), TokenType::Or, "or", lit(Literal::Bool(false)));
    assert_eq!(printed(e), Ok("true".to_string()));
}

#[test]
fn test_ternary_runs() {
    // print true ? 1 : 2;
    let e = Expr::Ternary { condition: Box::new(lit(Literal::Bool(true))), then_branch: Box::new(num(1.0)), else_branch: Box::new(num(2.0)), id: 0 };
    assert_eq!(printed(e), Ok("1".to_string()));
}

#[test]
fn test_block_scope_runs() {
    // { var x = 1; print x; }
    let (out, result) = run(vec![block(vec![declare("x", num(1.0)), print(var("x"))])]);
    assert!(result.is_ok());
    assert_eq!(out, vec!["1"]);
}

#[test]
fn test_if_true_runs() {
    // if (true) print 1; else print 2;
    let (out, result) = run(vec![if_else(lit(Literal::Bool(true)), print(num(1.0)), Some(print(num(2.0))))]);
    assert!(result.is_ok());
    assert_eq!(out, vec!["1"]);
}

#[test]
fn test_if_false_runs() {
    // if (false) print 1; else print 2;
    let (out, result) = run(vec![if_else(lit(Literal::Bool(false)), print(num(1.0)), Some(print(num(2.0))))]);
    assert!(result.is_ok());
    assert_eq!(out, vec!["2"]);
}

#[test]
fn test_while_loop_runs() {
    // var i = 0; while (i < 3) { i = i + 1; }
    let (_, result) = run(vec![
        declare("i", num(0.0)),
        while_loop(
            bin(var("i"), TokenType::Less, "<", num(3.0)),
            block(vec![expression(assign("i", bin(var("i"), TokenType::Plus, "+", num(1.0))))]),
        ),
    ]);
    assert!(result.is_ok());
}

#[test]
fn test_for_loop_runs() {
    // for (var i = 0; i < 3; i = i + 1) { print i; }, as the parser reads it into a while loop
    let (out, result) = run(vec![block(vec![
        declare("i", num(0.0)),
        while_loop(
            bin(var("i"), TokenType::Less, "<", num(3.0)),
            block(vec![
                block(vec![print(var("i"))]),
                expression(assign("i", bin(var("i"), TokenType::Plus, "+", num(1.0)))),
            ]),
        ),
    ])]);
    assert!(result.is_ok());
    assert_eq!(out, vec!["0", "1", "2"]);
}

#[test]
fn test_function_call_runs() {
    // fun f(x) { return x * 2; } print f(21);
    let (out, result) = run(vec![
        fun("f", &["x"], vec![ret(bin(var("x"), TokenType::Star, "*", num(2.0)))]),
        print(call(var("f"), vec![num(21.0)])),
    ]);
    assert!(result.is_ok());
    assert_eq!(out, vec!["42"]);
}

#[test]
fn test_recursive_function_runs() {
    // fun fib(n) { if (n < 2) return n; return fib(n - 1) + fib(n - 2); } print fib(10);
    let (out, result) = run(vec![
        fun("fib", &["n"], vec![
            if_else(bin(var("n"), TokenType::Less, "<", num(2.0)), ret(var("n")), None),
            ret(bin(
                call(var("fib"), vec![bin(var("n"), TokenType::Minus, "-", num(1.0))]),
                TokenType::Plus,
                "+",
                call(var("fib"), vec![bin(var("n"), TokenType::Minus, "-", num(2.0))]),
            )),
        ]),
        print(call(var("fib"), vec![num(10.0)])),
    ]);
    assert!(result.is_ok());
    assert_eq!(out, vec!["55"]);
}

#[test]
fn test_closure_runs() {
    // fun outer() { var x = 1; fun inner() { return x; } return inner; } var f = outer(); print f();
    let (out, result) = run(vec![
        fun("outer", &[], vec![
            declare("x", num(1.0)),
            fun("inner", &[], vec![ret(var("x"))]),
            ret(var("inner")),
        ]),
        declare("f", call(var("outer"), vec![])),
        print(call(var("f"), vec![])),
    ]);
    assert!(result.is_ok());
    assert_eq!(out, vec!["1"]);
}

#[test]
fn test_nested_block_scope_runs() {
    // var x = 0; { var x = 1; print x; } print x;
    let (out, result) = run(vec![
        declare("x", num(0.0)),
        block(vec![declare("x", num(1.0)), print(var("x"))]),
        print(var("x")),
    ]);
    assert!(result.is_ok());
    assert_eq!(out, vec!["1", "0"]);
}

#[test]
fn test_undefined_variable_error() {
    // print nosuch;
    assert!(run(vec![print(var("nosuch"))]).1.is_err());
}

#[test]
fn test_type_error_addition() {
    // print true + 1;
    assert!(printed(bin(lit(Literal::Bool(true)), TokenType::Plus, "+", num(1.0))).is_err());
}

#[test]
fn test_division_by_zero() {
    // print 1 / 0;
    assert!(printed(bin(num(1.0), TokenType::Slash, "/", num(0.0))).is_err());
}

#[test]
fn test_wrong_arity() {
    // fun f(a) { } f(1, 2);
    let (_, result) = run(vec![fun("f", &["a"], vec![]), expression(call(var("f"), vec![num(1.0), num(2.0)]))]);
    assert_eq!(result, Err("Expected 1 arguments but got 2.".to_string()));
}

#[test]
fn closures_share_the_variables_they_capture() {
    // fun counter() { var n = 0; fun inc() { n = n + 1; return n; } return inc; }
    // var c = counter(); c(); print c(); var d = counter(); print d();
    let (out, result) = run(vec![
        fun("counter", &[], vec![
            declare("n", num(0.0)),
            fun("inc", &[], vec![
                expression(assign("n", bin(var("n"), TokenType::Plus, "+", num(1.0)))),
                ret(var("n")),
            ]),
            ret(var("inc")),
        ]),
        declare("c", call(var("counter"), vec![])),
        expression(call(var("c"), vec![])),
        print(call(var("c"), vec![])),
        declare("d", call(var("counter"), vec![])),
        print(call(var("d"), vec![])),
    ]);
    assert!(result.is_ok());
    assert_eq!(out, vec!["2", "1"]);
}

#[test]
fn calls_print_and_end_without_return_as_nil() {
    // fun greet(who) { print "hi " + who; } print greet("you"); print greet;
    let (out, result) = run(vec![
        fun("greet", &["who"], vec![print(bin(string("hi "), TokenType::Plus, "+", var("who")))]),
        print(call(var("greet"), vec![string("you")])),
        print(var("greet")),
    ]);
    assert!(result.is_ok());
    assert_eq!(out, vec!["hi you", "nil", "<fn>"]);
}

#[test]
fn calling_a_value_that_is_not_a_function_is_an_error() {
    let (_, result) = run(vec![declare("x", num(1.0)), expression(call(var("x"), vec![]))]);
    assert_eq!(result, Err("Can only call functions and classes.".to_string()));
}

#[test]
fn return_leaves_loops_and_blocks() {
    // fun first() { var i = 0; while (true) { i = i + 1; if (i == 3) { return i; } } } print first();
    let (out, result) = run(vec![
        fun("first", &[], vec![
            declare("i", num(0.0)),
            while_loop(lit(Literal::Bool(true)), block(vec![
                expression(assign("i", bin(var("i"), TokenType::Plus, "+", num(1.0)))),
                if_else(bin(var("i"), TokenType::EqualEqual, "==", num(3.0)), block(vec![ret(var("i"))]), None),
            ])),
        ]),
        print(call(var("first"), vec![])),
    ]);
    assert!(result.is_ok());
    assert_eq!(out, vec!["3"]);
}

fn class(name: &str, superclass: Option<&str>, methods: Vec<Stmt>) -> Stmt {
    Stmt::Class { name: ident(name), superclass: superclass.map(ident), methods }
}

fn get(object: Expr, name: &str) -> Expr {
    Expr::Get { object: Box::new(object), name: ident(name), id: 0 }
}

fn set(object: Expr, name: &str, value: Expr) -> Expr {
    Expr::SetField { object: Box::new(object), name: ident(name), value: Box::new(value), id: 0 }
}

fn this() -> Expr {
    Expr::This { keyword: op(TokenType::This, "this"), id: 0 }
}

#[test]
fn test_class_runs() {
    // class Foo { bar() { return 42; } } var f = Foo(); print f.bar();
    let (out, result) = run(vec![
        class("Foo", None, vec![fun("bar", &[], vec![ret(num(42.0))])]),
        declare("f", call(var("Foo"), vec![])),
        print(call(get(var("f"), "bar"), vec![])),
    ]);
    assert!(result.is_ok());
    assert_eq!(out, vec!["42"]);
}

#[test]
fn test_class_inheritance_super_runs() {
    // class A { method() { return 1; } }
    // class B < A { method() { return super.method() + 1; } }
    // var b = B(); print b.method();
    let sup = Expr::Super { keyword: op(TokenType::Super, "super"), method: ident("method"), id: 0 };
    let (out, result) = run(vec![
        class("A", None, vec![fun("method", &[], vec![ret(num(1.0))])]),
        class("B", Some("A"), vec![fun("method", &[], vec![ret(bin(call(sup, vec![]), TokenType::Plus, "+", num(1.0)))])]),
        declare("b", call(var("B"), vec![])),
        print(call(get(var("b"), "method"), vec![])),
    ]);
    assert!(result.is_ok());
    assert_eq!(out, vec!["2"]);
}

#[test]
fn instances_hold_fields_and_methods_see_this() {
    // class P { sum() { return this.x + this.y; } }
    // var p = P(); p.x = 1; p.y = 2; print p.sum(); print p; print P;
    let (out, result) = run(vec![
        class("P", None, vec![fun("sum", &[], vec![ret(bin(get(this(), "x"), TokenType::Plus, "+", get(this(), "y")))])]),
        declare("p", call(var("P"), vec![])),
        expression(set(var("p"), "x", num(1.0))),
        expression(set(var("p"), "y", num(2.0))),
        print(call(get(var("p"), "sum"), vec![])),
        print(var("p")),
        print(var("P")),
    ]);
    assert!(result.is_ok());
    assert_eq!(out, vec!["3", "P instance", "<class P>"]);
}

#[test]
fn subclasses_inherit_methods_and_fields_shadow_them() {
    // class A { m() { return "a"; } } class B < A {} var b = B(); print b.m(); b.m = 5; print b.m;
    let (out, result) = run(vec![
        class("A", None, vec![fun("m", &[], vec![ret(string("a"))])]),
        class("B", Some("A"), vec![]),
        declare("b", call(var("B"), vec![])),
        print(call(get(var("b"), "m"), vec![])),
        expression(set(var("b"), "m", num(5.0))),
        print(get(var("b"), "m")),
    ]);
    assert!(result.is_ok());
    assert_eq!(out, vec!["a", "5"]);
}

#[test]
fn property_errors() {
    let (_, result) = run(vec![class("A", None, vec![]), print(get(call(var("A"), vec![]), "nothing"))]);
    assert_eq!(result, Err("Undefined property 'nothing'.".to_string()));
    assert_eq!(printed(get(num(1.0), "x")), Err("Only instances have properties.".to_string()));
    let (_, result) = run(vec![expression(set(num(1.0), "x", num(2.0)))]);
    assert_eq!(result, Err("Only instances have fields.".to_string()));
    let (_, result) = run(vec![declare("N", num(1.0)), class("B", Some("N"), vec![])]);
    assert_eq!(result, Err("Superclass must be a class.".to_string()));
    let (_, result) = run(vec![class("A", None, vec![]), expression(call(var("A"), vec![num(1.0)]))]);
    assert_eq!(result, Err("Expected 0 arguments but got 1.".to_string()));
}

#[test]
fn pending_run_leaves_the_evaluator_unchanged() {
    let mut evaluator = Evaluator::new();
    let program = vec![declare("x", num(1.0)), print(bin(var("x"), TokenType::Plus, "+", num(1.0)))];
    let run = evaluator.interpret(&program, &Replies::new());
    assert!(matches!(run.outcome, Outcome::Pending(Request::Add(_, _))));
    // x was not left defined
    let read = vec![print(var("x"))];
    let (_, result) = interpret(&mut evaluator, &read);
    assert_eq!(result, Err("Undefined variable 'x'.".to_string()));
}

#[test]
fn finished_run_keeps_its_definitions() {
    let first = vec![declare("x", string("kept"))];
    let second = vec![print(var("x"))];
    let mut evaluator = Evaluator::new();
    let (_, result) = interpret(&mut evaluator, &first);
    assert!(result.is_ok());
    let (out, _) = interpret(&mut evaluator, &second);
    assert_eq!(out, vec!["kept"]);
}

#[test]
fn replay_with_more_replies_gives_the_same_result() {
    let program = vec![print(bin(num(2.0), TokenType::Star, "*", num(21.0)))];
    let mut replies = Replies::new();
    let mut evaluator = Evaluator::new();
    let first = loop {
        let run = evaluator.interpret(&program, &replies);
        match run.outcome {
            Outcome::Pending(r) => answer(&mut replies, r),
            _ => break run.output,
        }
    };
    replies.numbers.push(7);
    replies.texts.push("unused".to_string());
    replies.iterations += 3;
    let again = evaluator.interpret(&program, &replies);
    assert!(matches!(again.outcome, Outcome::Done(())));
    assert_eq!(again.output, first);
    assert_eq!(first, vec!["42"]);
}

#[test]
fn requests_name_the_operands() {
    let mut evaluator = Evaluator::new();
    let program = vec![print(bin(num(2.0), TokenType::Minus, "-", num(0.5)))];
    let run = evaluator.interpret(&program, &Replies::new());
    match run.outcome {
        Outcome::Pending(Request::Subtract(a, b)) => {
            assert_eq!(f64::from_bits(a), 2.0);
            assert_eq!(f64::from_bits(b), 0.5);
        }
        _ => panic!("expected a subtraction request"),
    }
}

#[test]
fn each_reply_moves_the_run_on() {
    // print 1 + 2;  first the sum is asked for, then the text of the result
    let program = vec![print(bin(num(1.0), TokenType::Plus, "+", num(2.0)))];
    let mut evaluator = Evaluator::new();
    let mut replies = Replies::new();
    let first = evaluator.interpret(&program, &replies);
    assert!(matches!(first.outcome, Outcome::Pending(Request::Add(_, _))));
    replies.numbers.push(3.0f64.to_bits());
    let second = evaluator.interpret(&program, &replies);
    match second.outcome {
        Outcome::Pending(Request::Show(n)) => assert_eq!(f64::from_bits(n), 3.0),
        _ => panic!("expected the text of the sum to be asked for"),
    }
    replies.texts.push("3".to_string());
    let third = evaluator.interpret(&program, &replies);
    assert!(matches!(third.outcome, Outcome::Done(())));
    assert_eq!(third.output, vec!["3"]);
}

#[test]
fn while_loop_asks_for_each_turn() {
    // while (true) {} asks leave for each turn; with two turns allowed it asks for a third
    let program = vec![Stmt::While { condition: Box::new(lit(Literal::Bool(true))), body: Box::new(Stmt::Block { statements: vec![] }) }];
    let mut evaluator = Evaluator::new();
    let mut replies = Replies::new();
    replies.iterations = 2;
    let run = evaluator.interpret(&program, &replies);
    assert!(matches!(run.outcome, Outcome::Pending(Request::Iterate)));
}

#[test]
fn equality_is_symmetric_and_never_fails() {
    let pairs = vec![(num(1.0), string("1")), (lit(Literal::Nil), lit(Literal::Bool(false))), (string("a"), string("a"))];
    for (a, b) in pairs {
        let (a2, b2) = (clone_literal(&a), clone_literal(&b));
        let there = printed(bin(a, TokenType::EqualEqual, "==", b));
        let back = printed(bin(b2, TokenType::EqualEqual, "==", a2));
        assert!(there.is_ok());
        assert_eq!(there, back);
    }
}

#[test]
fn string_comparisons_swap() {
    assert_eq!(printed(bin(string("a"), TokenType::Less, "<", string("b"))), Ok("true".to_string()));
    assert_eq!(printed(bin(string("b"), TokenType::Greater, ">", string("a"))), Ok("true".to_string()));
    assert_eq!(printed(bin(string("b"), TokenType::GreaterEqual, ">=", string("a"))), Ok("true".to_string()));
    assert_eq!(printed(bin(string("b"), TokenType::Less, "<", string("a"))), Ok("false".to_string()));
}

fn clone_literal(e: &Expr) -> Expr {
    match e {
        Expr::Literal { value, id } => Expr::Literal { value: value.clone(), id: *id },
        _ => panic!("not a literal"),
    }
}

#[test]
fn a_waiting_run_hands_back_what_it_printed() {
    // print "a"; print 1 + 2;  waits for the sum after printing "a"; the rerun prints "a" again first
    let program = vec![print(string("a")), print(bin(num(1.0), TokenType::Plus, "+", num(2.0)))];
    let mut evaluator = Evaluator::new();
    let mut replies = Replies::new();
    let first = evaluator.interpret(&program, &replies);
    assert!(matches!(first.outcome, Outcome::Pending(Request::Add(_, _))));
    assert_eq!(first.output, vec!["a"]);
    replies.numbers.push(3.0f64.to_bits());
    let second = evaluator.interpret(&program, &replies);
    assert!(matches!(second.outcome, Outcome::Pending(Request::Show(_))));
    assert_eq!(second.output, vec!["a"]);
    replies.texts.push("3".to_string());
    let third = evaluator.interpret(&program, &replies);
    assert_eq!(third.output, vec!["a", "3"]);
}

#[test]
fn negation_needs_no_reply() {
    // print -5;  the only request is for the text of -5
    let program = vec![print(Expr::Unary { operator: op(TokenType::Minus, "-"), right: Box::new(num(5.0)), id: 0 })];
    let mut evaluator = Evaluator::new();
    let run = evaluator.interpret(&program, &Replies::new());
    match run.outcome {
        Outcome::Pending(Request::Show(n)) => assert_eq!(f64::from_bits(n), -5.0),
        _ => panic!("expected the text of -5 to be asked for"),
    }
    let nan = Expr::Unary { operator: op(TokenType::Minus, "-"), right: Box::new(num(f64::NAN)), id: 0 };
    assert_eq!(printed(nan), Ok("NaN".to_string()));
}

#[test]
fn number_comparisons_swap() {
    assert_eq!(printed(bin(num(1.0), TokenType::Less, "<", num(2.0))), Ok("true".to_string()));
    assert_eq!(printed(bin(num(2.0), TokenType::Greater, ">", num(1.0))), Ok("true".to_string()));
    assert_eq!(printed(bin(num(2.0), TokenType::LessEqual, "<=", num(1.0))), Ok("false".to_string()));
    assert_eq!(printed(bin(num(1.0), TokenType::GreaterEqual, ">=", num(2.0))), Ok("false".to_string()));
}

#[test]
fn setting_fields_changes_no_variable() {
    // class C {} var c = C(); var x = 1; c.x = 2; print x; print c.x;
    let (out, result) = run(vec![
        class("C", None, vec![]),
        declare("c", call(var("C"), vec![])),
        declare("x", num(1.0)),
        expression(set(var("c"), "x", num(2.0))),
        print(var("x")),
        print(get(var("c"), "x")),
    ]);
    assert!(result.is_ok());
    assert_eq!(out, vec!["1", "2"]);
}
