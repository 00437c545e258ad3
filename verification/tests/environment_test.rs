use lox_ast_rust::datastructs::exceptions::RuntimeException;
use lox_ast_rust::datastructs::literal::Literal;
use lox_ast_rust::datastructs::token::{Token, TokenType};
use lox_ast_rust::environment::Environment;

fn name(s: &str) -> Token {
    Token::new(TokenType::Identifier, s.to_string(), None, 4)
}

fn number(v: f64) -> Literal {
    Literal::Number(v.to_bits())
}

fn expect_bool(r: Result<Literal, RuntimeException>) -> bool {
    match r {
        Ok(Literal::Bool(b)) => b,
        _ => panic!("expected a boolean"),
    }
}

fn expect_error(r: Result<Literal, RuntimeException>) -> String {
    match r {
        Err(RuntimeException::Error { token, message }) => {
            assert_eq!(token.line(), 4);
            message
        }
        _ => panic!("expected an error"),
    }
}

#[test]
fn get_after_define_gives_the_value() {
    let mut env = Environment::new();
    env.define(0, &name("a"), Literal::Bool(true));
    assert!(expect_bool(env.get(0, &name("a"))));
    env.define(0, &name("a"), Literal::Bool(false));
    assert!(!expect_bool(env.get(0, &name("a"))));
}

#[test]
fn undefined_variable_is_an_error() {
    let env = Environment::new();
    assert_eq!(expect_error(env.get(0, &name("nosuch"))), "Undefined variable 'nosuch'.");
}

#[test]
fn define_keeps_other_names() {
    let mut env = Environment::new();
    env.define(0, &name("a"), Literal::Bool(true));
    env.define(0, &name("b"), Literal::Bool(false));
    assert!(expect_bool(env.get(0, &name("a"))));
    assert!(!expect_bool(env.get(0, &name("b"))));
}

#[test]
fn assign_needs_a_binding() {
    let mut env = Environment::new();
    match env.assign(0, &name("x"), number(1.0)) {
        Err(RuntimeException::Error { message, .. }) => assert_eq!(message, "Undefined variable 'x'."),
        _ => panic!("expected an error"),
    }
    assert!(env.get(0, &name("x")).is_err());
    env.define(0, &name("x"), number(1.0));
    assert!(env.assign(0, &name("x"), Literal::Nil).is_ok());
    assert!(matches!(env.get(0, &name("x")), Ok(Literal::Nil)));
}

#[test]
fn inner_scope_sees_outer_and_shadows() {
    let mut env = Environment::new();
    env.define(0, &name("x"), Literal::Bool(true));
    env.define(0, &name("y"), Literal::Bool(true));
    let inner = env.new_enclosed(0);
    assert_eq!(inner, 1);
    assert_eq!(env.len(), 2);
    env.define(inner, &name("x"), Literal::Bool(false));
    assert!(!expect_bool(env.get(inner, &name("x"))));
    assert!(expect_bool(env.get(inner, &name("y"))));
    // assigning y from inside changes the outer binding
    assert!(env.assign(inner, &name("y"), Literal::Bool(false)).is_ok());
    assert!(!expect_bool(env.get_at(inner, 1, &name("y"))));
    assert!(expect_bool(env.get_at(inner, 1, &name("x"))));
    assert!(expect_bool(env.get(0, &name("x"))));
    assert!(!expect_bool(env.get(0, &name("y"))));
}

#[test]
fn scopes_outlive_the_code_that_made_them() {
    // two scopes nested in the same one share it, and keep their own bindings
    let mut env = Environment::new();
    env.define(0, &name("shared"), number(1.0));
    let a = env.new_enclosed(0);
    let b = env.new_enclosed(0);
    env.define(a, &name("own"), Literal::Bool(true));
    env.define(b, &name("own"), Literal::Bool(false));
    assert!(env.assign(a, &name("shared"), Literal::Nil).is_ok());
    assert!(matches!(env.get(b, &name("shared")), Ok(Literal::Nil)));
    assert!(expect_bool(env.get(a, &name("own"))));
    assert!(!expect_bool(env.get(b, &name("own"))));
}

#[test]
fn get_at_and_assign_at_count_scopes_outward() {
    let mut env = Environment::new();
    env.define(0, &name("v"), Literal::Bool(true));
    let inner = env.new_enclosed(0);
    env.define(inner, &name("v"), Literal::Bool(false));
    assert!(!expect_bool(env.get_at(inner, 0, &name("v"))));
    assert!(expect_bool(env.get_at(inner, 1, &name("v"))));
    assert_eq!(expect_error(env.get_at(inner, 2, &name("v"))), "Undefined variable 'v'.");
    assert!(env.assign_at(inner, 1, &name("v"), Literal::Nil).is_ok());
    assert!(matches!(env.get_at(inner, 1, &name("v")), Ok(Literal::Nil)));
    assert!(!expect_bool(env.get(inner, &name("v"))));
    assert!(env.assign_at(inner, 2, &name("v"), Literal::Nil).is_err());
}

#[test]
fn duplicate_keeps_bindings() {
    let mut env = Environment::new();
    env.define(0, &name("s"), Literal::String("text".to_string()));
    let copy = env.duplicate();
    env.define(0, &name("s"), Literal::Nil);
    assert!(matches!(copy.get(0, &name("s")), Ok(Literal::String(t)) if t == "text"));
}
