use lox_ast_rust::datastructs::class::Class;
use lox_ast_rust::datastructs::exceptions::RuntimeException;
use lox_ast_rust::datastructs::expr::Expr;
use lox_ast_rust::datastructs::instance::Instance;
use lox_ast_rust::datastructs::literal::Literal;
use lox_ast_rust::datastructs::stmt::Stmt;
use lox_ast_rust::datastructs::token::{Token, TokenType};
use lox_ast_rust::datastructs::values::FunctionCallable;
use lox_ast_rust::evaluator::{compare_strings, Cursor, Evaluator, NumberOrder, Outcome, Replies};

fn ident(s: &str) -> Token {
    Token::new(TokenType::Identifier, s.to_string(), None, 2)
}

fn idents(names: &[&str]) -> Vec<Token> {
    names.iter().map(|p| ident(p)).collect()
}

#[test]
fn instance_fields_are_set_and_read() {
    let class = Class::new("Point".to_string(), vec![]);
    let mut point = Instance::new(class);
    assert_eq!(point.text(), "Point instance");
    match point.get(&ident("x")) {
        Err(RuntimeException::Error { message, .. }) => assert_eq!(message, "Undefined property 'x'."),
        _ => panic!("expected an error"),
    }
    point.set(&ident("x"), Literal::Bool(true));
    point.set(&ident("y"), Literal::Nil);
    point.set(&ident("x"), Literal::Bool(false));
    assert!(matches!(point.get(&ident("x")), Ok(Literal::Bool(false))));
    assert!(matches!(point.get(&ident("y")), Ok(Literal::Nil)));
}

#[test]
fn class_finds_methods_by_name() {
    let (two, none, body) = (idents(&["a", "b"]), idents(&[]), vec![]);
    let class = Class::new(
        "Shape".to_string(),
        vec![
            ("area".to_string(), FunctionCallable::new(&two, &body, 0)),
            ("name".to_string(), FunctionCallable::new(&none, &body, 0)),
        ],
    );
    assert_eq!(class.name(), "Shape");
    assert_eq!(class.text(), "<class Shape>");
    assert_eq!(class.arity(), 0);
    assert_eq!(class.find_method(&"area".to_string()).unwrap().arity(), 2);
    assert_eq!(class.find_method(&"name".to_string()).unwrap().arity(), 0);
    assert!(class.find_method(&"perimeter".to_string()).is_none());
}

#[test]
fn function_call_binds_parameters_and_runs_body() {
    let body = vec![Stmt::Print { expression: Box::new(Expr::Variable { name: ident("b"), id: 0 }) }];
    let params = idents(&["a", "b"]);
    let f = FunctionCallable::new(&params, &body, 0);
    assert_eq!(f.text(), "<fn>");
    assert_eq!(f.arity(), 2);
    let mut evaluator = Evaluator::new();
    let mut cursor = Cursor { numbers: 0, orders: 0, texts: 0, iterations: 0 };
    let mut output = Vec::new();
    let args = vec![Literal::Bool(true), Literal::String("second".to_string())];
    let r = f.call(&mut evaluator, &args, &Replies::new(), &mut cursor, &mut output);
    assert!(matches!(r, Outcome::Done(Literal::Nil)));
    assert_eq!(output, vec!["second"]);
}

#[test]
fn function_call_with_fewer_arguments_leaves_parameters_unbound() {
    let body = vec![Stmt::Print { expression: Box::new(Expr::Variable { name: ident("b"), id: 0 }) }];
    let params = idents(&["a", "b"]);
    let f = FunctionCallable::new(&params, &body, 0);
    let mut evaluator = Evaluator::new();
    let mut cursor = Cursor { numbers: 0, orders: 0, texts: 0, iterations: 0 };
    let mut output = Vec::new();
    match f.call(&mut evaluator, &vec![Literal::Nil], &Replies::new(), &mut cursor, &mut output) {
        Outcome::Failed(e) => assert_eq!(e.message, "Undefined variable 'b'."),
        _ => panic!("expected an error"),
    }
}

#[test]
fn strings_compare_character_by_character() {
    assert_eq!(compare_strings("abc", "abd"), NumberOrder::Less);
    assert_eq!(compare_strings("abc", "abc"), NumberOrder::Equal);
    assert_eq!(compare_strings("b", "abc"), NumberOrder::Greater);
    assert_eq!(compare_strings("", "a"), NumberOrder::Less);
    assert_eq!(compare_strings("é", "z"), NumberOrder::Greater);
}

#[test]
fn expression_ids_are_read_from_every_kind_of_node() {
    let e = Expr::Variable { name: ident("v"), id: 11 };
    assert_eq!(e.id(), 11);
    let e = Expr::This { keyword: ident("this"), id: 12 };
    assert_eq!(e.id(), 12);
    let e = Expr::SetField { object: Box::new(Expr::Literal { value: Literal::Nil, id: 1 }), name: ident("f"), value: Box::new(Expr::Literal { value: Literal::Nil, id: 2 }), id: 13 };
    assert_eq!(e.id(), 13);
}

#[test]
fn token_accessors() {
    let t = Token::new(TokenType::Number, "1.5".to_string(), Some(Literal::Number(1.5f64.to_bits())), 9);
    assert_eq!(t.token_type(), TokenType::Number);
    assert_eq!(t.lexeme(), "1.5");
    assert_eq!(t.line(), 9);
    assert!(matches!(t.literal(), Some(Literal::Number(n)) if f64::from_bits(*n) == 1.5));
}

#[test]
fn calling_a_class_makes_an_empty_instance() {
    let (params, body) = (idents(&[]), vec![]);
    let class = Class::new("Cup".to_string(), vec![("fill".to_string(), FunctionCallable::new(&params, &body, 0))]);
    let mut cup = class.call();
    assert_eq!(cup.text(), "Cup instance");
    assert!(cup.get(&ident("fill")).is_err());
    cup.set(&ident("size"), Literal::Nil);
    assert!(matches!(cup.get(&ident("size")), Ok(Literal::Nil)));
    assert_eq!(class.call().text(), "Cup instance");
}

#[test]
fn literals_compare_by_kind_and_value() {
    assert_eq!(Literal::Bool(true).equals(&Literal::Bool(true)), Some(true));
    assert_eq!(Literal::String("a".to_string()).equals(&Literal::String("b".to_string())), Some(false));
    assert_eq!(Literal::Nil.equals(&Literal::Nil), Some(true));
    assert_eq!(Literal::Nil.equals(&Literal::Bool(false)), Some(false));
    assert_eq!(Literal::Instance(3).equals(&Literal::Instance(3)), Some(true));
    assert_eq!(Literal::Instance(3).equals(&Literal::Instance(4)), Some(false));
    assert_eq!(Literal::Callable(1).equals(&Literal::Callable(1)), Some(false));
    assert_eq!(Literal::Number(0).equals(&Literal::Number(0)), None);
    assert_eq!(Literal::Number(0).equals(&Literal::Nil), Some(false));
}
