use vstd::prelude::*;
use crate::datastructs::exceptions::RuntimeException;
use crate::datastructs::expr::Expr;
use crate::datastructs::literal::{Literal, Value};
use crate::datastructs::stmt::Stmt;
use crate::datastructs::token::{Token, TokenType};
use crate::datastructs::instance::undefined_property_message;
use crate::datastructs::values::{Fun, FunctionCallable};
use crate::environment::{
    Environment, Scope, bindings_map, define_in, distinct_names, empty_scope, law_get_after_assign,
    lemma_bindings_at, lemma_bindings_push, lemma_bindings_update, lemma_scope_view_insert, nested_before,
    reassign, resolve, scope_view, undefined_variable_message,
};
use crate::lox::{decimal, decimal_digits};
use crate::errors::RuntimeError;

verus! {

// Numbers are IEEE-754 doubles, held by their bits. The evaluator decides everything
// about a program's run but the arithmetic on numbers: each time it needs a sum, a
// comparison or the text of a number, it asks its caller. The caller answers by
// running the evaluation again with the answer appended to its replies; evaluation
// is a function of the program, the environment and the replies, so each run
// retraces the previous one and goes one request further.

/// The result of comparing two numbers; `Unordered` when either is NaN.
#[derive(Clone, Copy, Debug, PartialEq, Eq, Structural)]
pub enum NumberOrder {
    Less,
    Equal,
    Greater,
    Unordered,
}

/// Work that the evaluator leaves to its caller.
#[derive(Clone, Copy, Debug, PartialEq, Eq, Structural)]
pub enum Request {
    /// The sum of two numbers, answered in `Replies::numbers`.
    Add(u64, u64),
    /// The difference of two numbers, answered in `Replies::numbers`.
    Subtract(u64, u64),
    /// The product of two numbers, answered in `Replies::numbers`.
    Multiply(u64, u64),
    /// The quotient of two numbers, answered in `Replies::numbers`.
    Divide(u64, u64),
    /// How two numbers compare, answered in `Replies::orders`.
    Compare(u64, u64),
    /// The text of a number as it is joined to a string, answered in `Replies::texts`.
    Format(u64),
    /// The text of a number as `print` shows it, answered in `Replies::texts`.
    Show(u64),
    /// Leave for one more step, a turn of a `while` loop or a call of a function,
    /// answered by raising `Replies::iterations`.
    Iterate,
}

/// The caller's answers, each kind in the order its requests came.
pub struct Replies {
    pub numbers: Vec<u64>,
    pub orders: Vec<NumberOrder>,
    pub texts: Vec<String>,
    pub iterations: usize,
}

/// How many replies of each kind an evaluation has used.
#[derive(Clone, Copy, Debug, PartialEq, Eq, Structural)]
pub struct Cursor {
    pub numbers: usize,
    pub orders: usize,
    pub texts: usize,
    pub iterations: usize,
}

/// How an evaluation ends, as the contracts speak of it.
pub enum Step<T> {
    Done(T),
    Failed(Token, Seq<char>),
    Pending(Request),
}

/// How an evaluation ends: with a result, with a runtime error, or waiting for a reply.
pub enum Outcome<T> {
    Done(T),
    Failed(RuntimeError),
    Pending(Request),
}

pub open spec fn texts_view(v: Seq<String>) -> Seq<Seq<char>> {
    v.map_values(|s: String| s@)
}

pub open spec fn number_reply(r: Replies, c: Cursor) -> Option<(u64, Cursor)> {
    if c.numbers < r.numbers@.len() {
        Some(
            (
                r.numbers@[c.numbers as int],
                Cursor {
                    numbers: (c.numbers + 1) as usize,
                    orders: c.orders,
                    texts: c.texts,
                    iterations: c.iterations,
                },
            ),
        )
    } else {
        None
    }
}

pub open spec fn order_reply(r: Replies, c: Cursor) -> Option<(NumberOrder, Cursor)> {
    if c.orders < r.orders@.len() {
        Some(
            (
                r.orders@[c.orders as int],
                Cursor {
                    numbers: c.numbers,
                    orders: (c.orders + 1) as usize,
                    texts: c.texts,
                    iterations: c.iterations,
                },
            ),
        )
    } else {
        None
    }
}

pub open spec fn text_reply(r: Replies, c: Cursor) -> Option<(Seq<char>, Cursor)> {
    if c.texts < r.texts@.len() {
        Some(
            (
                r.texts@[c.texts as int]@,
                Cursor {
                    numbers: c.numbers,
                    orders: c.orders,
                    texts: (c.texts + 1) as usize,
                    iterations: c.iterations,
                },
            ),
        )
    } else {
        None
    }
}

/// Whether a value counts as true: `false` and `nil` do not, every other value does.
pub open spec fn truthy(v: Value) -> bool {
    match v {
        Value::Bool(b) => b,
        Value::Nil => false,
        _ => true,
    }
}

/// Equality of two values that are not both numbers: same kind and same contents.
pub open spec fn same_value(a: Value, b: Value) -> bool {
    match (a, b) {
        (Value::Str(x), Value::Str(y)) => x == y,
        (Value::Bool(x), Value::Bool(y)) => x == y,
        (Value::Nil, Value::Nil) => true,
        _ => false,
    }
}

/// Lexicographic order of two strings, character by character.
pub open spec fn str_order(a: Seq<char>, b: Seq<char>) -> NumberOrder
    decreases a.len(),
{
    if a.len() == 0 && b.len() == 0 {
        NumberOrder::Equal
    } else if a.len() == 0 {
        NumberOrder::Less
    } else if b.len() == 0 {
        NumberOrder::Greater
    } else if (a[0] as u32) < (b[0] as u32) {
        NumberOrder::Less
    } else if (a[0] as u32) > (b[0] as u32) {
        NumberOrder::Greater
    } else {
        str_order(a.drop_first(), b.drop_first())
    }
}

/// Whether an order satisfies the comparison operator of kind `ty`.
pub open spec fn order_accepts(ty: TokenType, o: NumberOrder) -> bool {
    match ty {
        TokenType::Greater => o == NumberOrder::Greater,
        TokenType::GreaterEqual => o != NumberOrder::Less,
        TokenType::Less => o == NumberOrder::Less,
        _ => o != NumberOrder::Greater,
    }
}

/// A number computed by the caller.
pub open spec fn arith(req: Request, r: Replies, c: Cursor) -> (Step<Value>, Cursor) {
    match number_reply(r, c) {
        Some((n, c2)) => (Step::Done(Value::Number(n)), c2),
        None => (Step::Pending(req), c),
    }
}

pub open spec fn addition(l: Value, op: Token, rv: Value, r: Replies, c: Cursor) -> (Step<Value>, Cursor) {
    match (l, rv) {
        (Value::Number(a), Value::Number(b)) => arith(Request::Add(a, b), r, c),
        (Value::Str(a), Value::Str(b)) => (Step::Done(Value::Str(a + b)), c),
        (Value::Str(a), Value::Number(b)) => match text_reply(r, c) {
            Some((t, c2)) => (Step::Done(Value::Str(a + t)), c2),
            None => (Step::Pending(Request::Format(b)), c),
        },
        (Value::Number(a), Value::Str(b)) => match text_reply(r, c) {
            Some((t, c2)) => (Step::Done(Value::Str(t + b)), c2),
            None => (Step::Pending(Request::Format(a)), c),
        },
        _ => (Step::Failed(op, "Operands must be two numbers or atleast one string."@), c),
    }
}

pub open spec fn numeric(l: Value, op: Token, rv: Value, r: Replies, c: Cursor) -> (Step<Value>, Cursor) {
    match (l, rv) {
        (Value::Number(a), Value::Number(b)) => arith(
            if op.token_type == TokenType::Minus {
                Request::Subtract(a, b)
            } else {
                Request::Multiply(a, b)
            },
            r,
            c,
        ),
        _ => (Step::Failed(op, "Operands must be numbers."@), c),
    }
}

pub open spec fn division(l: Value, op: Token, rv: Value, r: Replies, c: Cursor) -> (Step<Value>, Cursor) {
    match (l, rv) {
        (Value::Number(a), Value::Number(b)) => match order_reply(r, c) {
            Some((o, c2)) => if o == NumberOrder::Equal {
                (Step::Failed(op, "Division by zero."@), c2)
            } else {
                arith(Request::Divide(a, b), r, c2)
            },
            None => (Step::Pending(Request::Compare(b, 0)), c),
        },
        _ => (Step::Failed(op, "Operands must be numbers."@), c),
    }
}

pub open spec fn comparison(l: Value, op: Token, rv: Value, r: Replies, c: Cursor) -> (Step<Value>, Cursor) {
    match (l, rv) {
        (Value::Number(a), Value::Number(b)) => match order_reply(r, c) {
            Some((o, c2)) => if o == NumberOrder::Unordered {
                (Step::Failed(op, "Operands must be two numbers or two strings."@), c2)
            } else {
                (Step::Done(Value::Bool(order_accepts(op.token_type, o))), c2)
            },
            None => (Step::Pending(Request::Compare(a, b)), c),
        },
        (Value::Str(a), Value::Str(b)) => (
            Step::Done(Value::Bool(order_accepts(op.token_type, str_order(a, b)))),
            c,
        ),
        _ => (Step::Failed(op, "Operands must be two numbers or two strings."@), c),
    }
}

pub open spec fn equality(l: Value, rv: Value, negate: bool, r: Replies, c: Cursor) -> (Step<Value>, Cursor) {
    match (l, rv) {
        (Value::Number(a), Value::Number(b)) => match order_reply(r, c) {
            Some((o, c2)) => (Step::Done(Value::Bool((o == NumberOrder::Equal) != negate)), c2),
            None => (Step::Pending(Request::Compare(a, b)), c),
        },
        _ => (Step::Done(Value::Bool(same_value(l, rv) != negate)), c),
    }
}

/// The value of a binary operation on `l` and `rv`.
pub open spec fn binary(l: Value, op: Token, rv: Value, r: Replies, c: Cursor) -> (Step<Value>, Cursor) {
    match op.token_type {
        TokenType::Plus => addition(l, op, rv, r, c),
        TokenType::Minus | TokenType::Star => numeric(l, op, rv, r, c),
        TokenType::Slash => division(l, op, rv, r, c),
        TokenType::Greater | TokenType::GreaterEqual | TokenType::Less | TokenType::LessEqual =>
            comparison(l, op, rv, r, c),
        TokenType::EqualEqual => equality(l, rv, false, r, c),
        TokenType::BangEqual => equality(l, rv, true, r, c),
        _ => (Step::Failed(op, "Unknown binary operator."@), c),
    }
}

/// The negation of the double with bits `n`: the same bits with the sign bit flipped,
/// which is what IEEE-754 negation does, for every value, NaN included.
pub open spec fn negated(n: u64) -> u64 {
    n ^ 0x8000_0000_0000_0000u64
}

/// The value of a unary operation on `v`.
pub open spec fn unary(op: Token, v: Value, r: Replies, c: Cursor) -> (Step<Value>, Cursor) {
    match op.token_type {
        TokenType::Minus => match v {
            Value::Number(n) => (Step::Done(Value::Number(negated(n))), c),
            _ => (Step::Failed(op, "Operand must be a number."@), c),
        },
        TokenType::Bang => (Step::Done(Value::Bool(!truthy(v))), c),
        _ => (Step::Failed(op, "Unknown unary operator."@), c),
    }
}

/// The function `f` names, if it is a function of the run.
pub open spec fn callee(f: Value, funs: Seq<Fun>) -> Option<Fun> {
    match f {
        Value::Callable(i) => if i < funs.len() {
            Some(funs[i as int])
        } else {
            None
        },
        _ => None,
    }
}

/// The message of the error for calling a value that is not a function.
pub open spec fn not_callable_message() -> Seq<char> {
    "Can only call functions and classes."@
}

/// The message of the error for a call with the wrong number of arguments.
pub open spec fn arity_message(expected: nat, got: nat) -> Seq<char> {
    "Expected "@ + decimal_digits(expected) + " arguments but got "@ + decimal_digits(got) + "."@
}

/// A class as the contracts see it: its name, the statements of its body, the index of
/// the scope its methods were declared in, and the index of its superclass.
pub struct ClassDef {
    pub name: Seq<char>,
    pub methods: Seq<Stmt>,
    pub closure: usize,
    pub superclass: Option<usize>,
}

/// An instance as the contracts see it: the index of its class, and its fields.
pub struct Obj {
    pub class: usize,
    pub fields: Map<Seq<char>, Value>,
}

/// The index of the last method named `name` among the statements `ms`.
pub open spec fn last_method(ms: Seq<Stmt>, name: Seq<char>) -> Option<int>
    decreases ms.len(),
{
    if ms.len() == 0 {
        None
    } else {
        match ms.last() {
            Stmt::Function { name: n, .. } => if n.lexeme@ == name {
                Some(ms.len() - 1)
            } else {
                last_method(ms.drop_last(), name)
            },
            _ => last_method(ms.drop_last(), name),
        }
    }
}

/// The method at `k` of the class `d`, as a function declared in the class's scope.
pub open spec fn method_fun(d: ClassDef, k: int) -> Fun {
    match d.methods[k] {
        Stmt::Function { params, body, .. } => Fun { params: params@, body: body@, closure: d.closure },
        _ => Fun { params: Seq::empty(), body: Seq::empty(), closure: d.closure },
    }
}

/// The method named `name` of the class `c`, looked for in the class and then in its
/// superclasses.
pub open spec fn find_method(classes: Seq<ClassDef>, c: int, name: Seq<char>) -> Option<Fun>
    decreases c,
{
    if !(0 <= c < classes.len()) {
        None
    } else {
        match last_method(classes[c].methods, name) {
            Some(k) => Some(method_fun(classes[c], k)),
            None => match classes[c].superclass {
                Some(p) => if p < c {
                    find_method(classes, p as int, name)
                } else {
                    None
                },
                None => None,
            },
        }
    }
}

/// The method `m` bound to the instance `k`: a new function whose scope binds `this` to
/// the instance, nested in the scope the method was declared in.
pub open spec fn bind(st: State, m: Fun, k: usize) -> (Value, State) {
    let frame = Scope { vars: Map::empty().insert("this"@, Value::Instance(k)), enclosing: Some(m.closure) };
    (
        Value::Callable(st.funs.len() as usize),
        State {
            scopes: st.scopes.push(frame),
            funs: st.funs.push(Fun { params: m.params, body: m.body, closure: st.scopes.len() as usize }),
            ..st
        },
    )
}

/// The property `name` of the instance `k`: its field, or else its class's method bound
/// to it.
pub open spec fn get_property(st: State, k: usize, name: Token) -> (Step<Value>, State) {
    if st.objects[k as int].fields.contains_key(name.lexeme@) {
        (Step::Done(st.objects[k as int].fields[name.lexeme@]), st)
    } else {
        match find_method(st.classes, st.objects[k as int].class as int, name.lexeme@) {
            Some(m) => {
                let (v, s1) = bind(st, m, k);
                (Step::Done(v), s1)
            },
            None => (Step::Failed(name, undefined_property_message(name.lexeme@)), st),
        }
    }
}

/// The message of the error for reading a property of a value that is not an instance.
pub open spec fn no_properties_message() -> Seq<char> {
    "Only instances have properties."@
}

/// The message of the error for setting a field of a value that is not an instance.
pub open spec fn no_fields_message() -> Seq<char> {
    "Only instances have fields."@
}

/// The message of the error for a superclass that is not a class.
pub open spec fn superclass_message() -> Seq<char> {
    "Superclass must be a class."@
}

/// Everything a run works on: its scopes, the functions, classes and instances it has
/// made, the scope it runs in, the lines it has printed, and the replies it has used.
pub struct State {
    pub scopes: Seq<Scope>,
    pub funs: Seq<Fun>,
    pub classes: Seq<ClassDef>,
    pub objects: Seq<Obj>,
    pub env: usize,
    pub out: Seq<Seq<char>>,
    pub cursor: Cursor,
}

/// The state `st` with the replies used up to `c`.
pub open spec fn at_cursor(st: State, c: Cursor) -> State {
    State { cursor: c, ..st }
}

/// Between `st` and `st1` no step was taken back, and no more steps were taken than
/// the replies allow.
pub open spec fn steps_within(st: State, st1: State, r: Replies) -> bool {
    st.cursor.iterations <= st1.cursor.iterations <= r.iterations
}

/// The end of a run that waits to be allowed one more step.
pub open spec fn wait<T>(st: State) -> (Step<T>, State) {
    (Step::Pending(Request::Iterate), st)
}

/// The value of the variable `name` seen from the scope the run is in.
pub open spec fn lookup(st: State, name: Token) -> Step<Value> {
    match resolve(st.scopes, st.env as int, name.lexeme@) {
        Some(v) => Step::Done(v),
        None => Step::Failed(name, undefined_variable_message(name.lexeme@)),
    }
}

/// The end of an evaluation that did not give a value, carried over to another kind.
pub open spec fn abandon<A, B>(x: Step<A>) -> Step<B> {
    match x {
        Step::Failed(t, m) => Step::Failed(t, m),
        Step::Pending(q) => Step::Pending(q),
        Step::Done(_) => Step::Pending(Request::Iterate),
    }
}

/// The bindings of the first `n` parameters to the first `n` arguments, in order.
pub open spec fn bind_params(params: Seq<Token>, args: Seq<Value>, n: nat) -> Map<Seq<char>, Value>
    decreases n,
{
    if n == 0 {
        Map::empty()
    } else {
        bind_params(params, args, (n - 1) as nat).insert(params[n - 1].lexeme@, args[n - 1])
    }
}

/// The number of parameters bound in a call: as many as both lists hold.
pub open spec fn bound_count(params: nat, args: nat) -> nat {
    if params <= args {
        params
    } else {
        args
    }
}

/// Evaluates `e` from the state `st` with the replies `r`: its value (or how it
/// stopped), and the state after it.
pub open spec fn eval(e: Expr, st: State, r: Replies) -> (Step<Value>, State)
    decreases r.iterations - st.cursor.iterations, 0int, e, 0int,
{
    match e {
        Expr::Literal { value, .. } => (Step::Done(value@), st),
        Expr::Grouping { expression, .. } => eval(*expression, st, r),
        Expr::Variable { name, .. } => (lookup(st, name), st),
        Expr::Assign { name, value, .. } => {
            let (x, s1) = eval(*value, st, r);
            match x {
                Step::Done(v) => match reassign(s1.scopes, s1.env as int, name.lexeme@, v) {
                    Some(sc) => (Step::Done(v), State { scopes: sc, ..s1 }),
                    None => (Step::Failed(name, undefined_variable_message(name.lexeme@)), s1),
                },
                _ => (x, s1),
            }
        },
        Expr::Logical { left, operator, right, .. } => {
            let (x, s1) = eval(*left, st, r);
            match x {
                Step::Done(v) => if (operator.token_type == TokenType::Or) == truthy(v) {
                    (Step::Done(v), s1)
                } else if steps_within(st, s1, r) {
                    eval(*right, s1, r)
                } else {
                    wait(s1)
                },
                _ => (x, s1),
            }
        },
        Expr::Unary { operator, right, .. } => {
            let (x, s1) = eval(*right, st, r);
            match x {
                Step::Done(v) => {
                    let (y, c2) = unary(operator, v, r, s1.cursor);
                    (y, at_cursor(s1, c2))
                },
                _ => (x, s1),
            }
        },
        Expr::Binary { left, operator, right, .. } => {
            let (x, s1) = eval(*left, st, r);
            match x {
                Step::Done(lv) => if steps_within(st, s1, r) {
                    let (y, s2) = eval(*right, s1, r);
                    match y {
                        Step::Done(rv) => {
                            let (z, c3) = binary(lv, operator, rv, r, s2.cursor);
                            (z, at_cursor(s2, c3))
                        },
                        _ => (y, s2),
                    }
                } else {
                    wait(s1)
                },
                _ => (x, s1),
            }
        },
        Expr::Ternary { condition, then_branch, else_branch, .. } => {
            let (x, s1) = eval(*condition, st, r);
            match x {
                Step::Done(v) => if !steps_within(st, s1, r) {
                    wait(s1)
                } else if v == Value::Bool(true) {
                    eval(*then_branch, s1, r)
                } else {
                    eval(*else_branch, s1, r)
                },
                _ => (x, s1),
            }
        },
        Expr::Call { callee: f, paren, arguments, .. } => {
            let (x, s1) = eval(*f, st, r);
            match x {
                Step::Done(fv) => if !steps_within(st, s1, r) {
                    wait(s1)
                } else {
                    let (y, s2) = eval_args(arguments@, 0, s1, r);
                    match y {
                        Step::Done(args) => if !steps_within(st, s2, r) {
                            wait(s2)
                        } else if fv is Class && fv->Class_0 < s2.classes.len() {
                            if args.len() != 0 {
                                (Step::Failed(paren, arity_message(0, args.len())), s2)
                            } else {
                                (
                                    Step::Done(Value::Instance(s2.objects.len() as usize)),
                                    State {
                                        objects: s2.objects.push(Obj { class: fv->Class_0, fields: Map::empty() }),
                                        ..s2
                                    },
                                )
                            }
                        } else {
                            match callee(fv, s2.funs) {
                                None => (Step::Failed(paren, not_callable_message()), s2),
                                Some(fun) => if args.len() != fun.params.len() {
                                    (
                                        Step::Failed(paren, arity_message(fun.params.len(), args.len())),
                                        s2,
                                    )
                                } else if s2.cursor.iterations < r.iterations {
                                    invoke(
                                        fun,
                                        args,
                                        at_cursor(s2, Cursor { iterations: (s2.cursor.iterations + 1) as usize, ..s2.cursor }),
                                        r,
                                    )
                                } else {
                                    wait(s2)
                                },
                            }
                        },
                        _ => (abandon(y), s2),
                    }
                },
                _ => (x, s1),
            }
        },
        Expr::Get { object, name, .. } => {
            let (x, s1) = eval(*object, st, r);
            match x {
                Step::Done(ov) => if ov is Instance && ov->Instance_0 < s1.objects.len() {
                    get_property(s1, ov->Instance_0, name)
                } else {
                    (Step::Failed(name, no_properties_message()), s1)
                },
                _ => (x, s1),
            }
        },
        Expr::SetField { object, name, value, .. } => {
            let (x, s1) = eval(*object, st, r);
            match x {
                Step::Done(ov) => if !(ov is Instance && ov->Instance_0 < s1.objects.len()) {
                    (Step::Failed(name, no_fields_message()), s1)
                } else if !steps_within(st, s1, r) {
                    wait(s1)
                } else {
                    let k = ov->Instance_0;
                    let (y, s2) = eval(*value, s1, r);
                    match y {
                        Step::Done(v) => if k < s2.objects.len() {
                            (
                                Step::Done(v),
                                State {
                                    objects: s2.objects.update(
                                        k as int,
                                        Obj {
                                            class: s2.objects[k as int].class,
                                            fields: s2.objects[k as int].fields.insert(name.lexeme@, v),
                                        },
                                    ),
                                    ..s2
                                },
                            )
                        } else {
                            (Step::Failed(name, no_fields_message()), s2)
                        },
                        _ => (y, s2),
                    }
                },
                _ => (x, s1),
            }
        },
        Expr::This { keyword, .. } => (lookup(st, keyword), st),
        Expr::Super { keyword, method, .. } => match resolve(st.scopes, st.env as int, "super"@) {
            Some(Value::Class(sc)) => match resolve(st.scopes, st.env as int, "this"@) {
                Some(Value::Instance(k)) => match find_method(st.classes, sc as int, method.lexeme@) {
                    Some(m) => {
                        let (v, s1) = bind(st, m, k);
                        (Step::Done(v), s1)
                    },
                    None => (Step::Failed(method, undefined_property_message(method.lexeme@)), st),
                },
                _ => (Step::Failed(keyword, undefined_variable_message("this"@)), st),
            },
            Some(_) => (Step::Failed(keyword, superclass_message()), st),
            None => (Step::Failed(keyword, undefined_variable_message("super"@)), st),
        },
    }
}

/// Evaluates `args[i..]` from left to right, stopping at the first that gives no value.
pub open spec fn eval_args(args: Seq<Expr>, i: int, st: State, r: Replies) -> (Step<Seq<Value>>, State)
    decreases r.iterations - st.cursor.iterations, 0int, args, args.len() - i,
{
    if i < 0 || i >= args.len() {
        (Step::Done(Seq::empty()), st)
    } else {
        let (x, s1) = eval(args[i], st, r);
        match x {
            Step::Done(v) => if steps_within(st, s1, r) {
                let (y, s2) = eval_args(args, i + 1, s1, r);
                match y {
                    Step::Done(vs) => (Step::Done(seq![v] + vs), s2),
                    _ => (y, s2),
                }
            } else {
                wait(s1)
            },
            _ => (abandon(x), s1),
        }
    }
}

/// Runs the body of `fun` on `args`: in a new scope nested in the scope the function
/// was declared in, with each parameter bound to its argument. The call gives what a
/// `return` gave, or `nil` when the body ran to its end; the caller's scope is the
/// current one again afterwards.
pub open spec fn invoke(fun: Fun, args: Seq<Value>, st: State, r: Replies) -> (Step<Value>, State)
    decreases r.iterations - st.cursor.iterations, 1int, fun.body, fun.body.len() + 1,
{
    let frame = Scope {
        vars: bind_params(fun.params, args, bound_count(fun.params.len(), args.len())),
        enclosing: Some(fun.closure),
    };
    let s1 = State { scopes: st.scopes.push(frame), env: st.scopes.len() as usize, ..st };
    let (x, s2) = exec_from(fun.body, 0, s1, r);
    let s3 = State { env: st.env, ..s2 };
    match x {
        Step::Done(Some(v)) => (Step::Done(v), s3),
        Step::Done(None) => (Step::Done(Value::Nil), s3),
        Step::Failed(t, m) => (Step::Failed(t, m), s3),
        Step::Pending(q) => (Step::Pending(q), s3),
    }
}

/// The name of the class `c`, if it is one of `classes`.
pub open spec fn class_name(classes: Seq<ClassDef>, c: int) -> Seq<char> {
    if 0 <= c < classes.len() {
        classes[c].name
    } else {
        Seq::empty()
    }
}

/// The text `print` writes for a value.
pub open spec fn show(v: Value, classes: Seq<ClassDef>, objects: Seq<Obj>, r: Replies, c: Cursor) -> (
    Step<Seq<char>>,
    Cursor,
) {
    match v {
        Value::Bool(b) => (Step::Done(if b { "true"@ } else { "false"@ }), c),
        Value::Nil => (Step::Done("nil"@), c),
        Value::Str(t) => (Step::Done(t), c),
        Value::Callable(_) => (Step::Done("<fn>"@), c),
        Value::Class(k) => (Step::Done("<class "@ + class_name(classes, k as int) + ">"@), c),
        Value::Instance(k) => (
            Step::Done(
                (if k < objects.len() {
                    class_name(classes, objects[k as int].class as int)
                } else {
                    Seq::empty()
                }) + " instance"@,
            ),
            c,
        ),
        Value::Number(n) => match text_reply(r, c) {
            Some((t, c2)) => (Step::Done(t), c2),
            None => (Step::Pending(Request::Show(n)), c),
        },
    }
}

/// How a statement ends: `Done(None)` when it completes, `Done(Some(v))` when it
/// returns `v`, or failed, or waiting.
pub type Completion = Step<Option<Value>>;

/// The state `st` with the scope `at` made current.
pub open spec fn in_scope(st: State, at: usize) -> State {
    State { env: at, ..st }
}

/// Executes one statement from the state `s`.
pub open spec fn exec_stmt(st: Stmt, s: State, r: Replies) -> (Completion, State)
    decreases r.iterations - s.cursor.iterations, 1int, st, 1int,
{
    match st {
        Stmt::Expression { expression } => {
            let (x, s1) = eval(*expression, s, r);
            match x {
                Step::Done(_) => (Step::Done(None), s1),
                _ => (abandon(x), s1),
            }
        },
        Stmt::Print { expression } => {
            let (x, s1) = eval(*expression, s, r);
            match x {
                Step::Done(v) => {
                    let (y, c2) = show(v, s1.classes, s1.objects, r, s1.cursor);
                    match y {
                        Step::Done(text) => (Step::Done(None), State { out: s1.out.push(text), cursor: c2, ..s1 }),
                        _ => (abandon(y), at_cursor(s1, c2)),
                    }
                },
                _ => (abandon(x), s1),
            }
        },
        Stmt::Var { name, initializer } => {
            let (x, s1) = eval(*initializer, s, r);
            match x {
                Step::Done(v) => (
                    Step::Done(None),
                    State { scopes: define_in(s1.scopes, s1.env as int, name.lexeme@, v), ..s1 },
                ),
                _ => (abandon(x), s1),
            }
        },
        Stmt::Block { statements } => {
            let s1 = State { scopes: s.scopes.push(empty_scope(Some(s.env))), env: s.scopes.len() as usize, ..s };
            let (x, s2) = exec_from(statements@, 0, s1, r);
            (x, in_scope(s2, s.env))
        },
        Stmt::If { condition, then_branch, else_branch } => {
            let (x, s1) = eval(*condition, s, r);
            match x {
                Step::Done(v) => if !steps_within(s, s1, r) {
                    wait(s1)
                } else if truthy(v) {
                    exec_stmt(*then_branch, s1, r)
                } else {
                    match else_branch {
                        Some(b) => exec_stmt(*b, s1, r),
                        None => (Step::Done(None), s1),
                    }
                },
                _ => (abandon(x), s1),
            }
        },
        Stmt::While { .. } => run_while(st, s, r),
        Stmt::Function { name, params, body } => {
            let fun = Fun { params: params@, body: body@, closure: s.env };
            let v = Value::Callable(s.funs.len() as usize);
            (
                Step::Done(None),
                State { scopes: define_in(s.scopes, s.env as int, name.lexeme@, v), funs: s.funs.push(fun), ..s },
            )
        },
        Stmt::Class { name, superclass, methods } => match superclass {
            None => declare_class(s, name, methods@, s.env, None),
            Some(sn) => match resolve(s.scopes, s.env as int, sn.lexeme@) {
                Some(Value::Class(sc)) => if sc < s.classes.len() {
                    let frame = Scope { vars: Map::empty().insert("super"@, Value::Class(sc)), enclosing: Some(s.env) };
                    let s1 = State { scopes: s.scopes.push(frame), ..s };
                    declare_class(s1, name, methods@, s.scopes.len() as usize, Some(sc))
                } else {
                    (Step::Failed(sn, superclass_message()), s)
                },
                Some(_) => (Step::Failed(sn, superclass_message()), s),
                None => (Step::Failed(sn, undefined_variable_message(sn.lexeme@)), s),
            },
        },
        Stmt::Return { value, .. } => match value {
            Some(e) => {
                let (x, s1) = eval(*e, s, r);
                match x {
                    Step::Done(v) => (Step::Done(Some(v)), s1),
                    _ => (abandon(x), s1),
                }
            },
            None => (Step::Done(Some(Value::Nil)), s),
        },
    }
}

/// Declares the class `name` with the methods among `ms`, declared in the scope
/// `closure`, and the superclass `sup`: the class is bound to its name in the current
/// scope.
pub open spec fn declare_class(s: State, name: Token, ms: Seq<Stmt>, closure: usize, sup: Option<usize>) -> (Completion, State) {
    let d = ClassDef { name: name.lexeme@, methods: ms, closure, superclass: sup };
    (
        Step::Done(None),
        State {
            scopes: define_in(s.scopes, s.env as int, name.lexeme@, Value::Class(s.classes.len() as usize)),
            classes: s.classes.push(d),
            ..s
        },
    )
}

/// Executes `stmts[i..]` in order, stopping at the first that does not complete.
pub open spec fn exec_from(stmts: Seq<Stmt>, i: int, s: State, r: Replies) -> (Completion, State)
    decreases r.iterations - s.cursor.iterations, 1int, stmts, stmts.len() - i,
{
    if i < 0 || i >= stmts.len() {
        (Step::Done(None), s)
    } else {
        let (x, s1) = exec_stmt(stmts[i], s, r);
        match x {
            Step::Done(None) => if steps_within(s, s1, r) {
                exec_from(stmts, i + 1, s1, r)
            } else {
                wait(s1)
            },
            _ => (x, s1),
        }
    }
}

/// Runs the `while` statement `st`: each turn past a true condition takes one of the
/// steps the caller allowed.
pub open spec fn run_while(st: Stmt, s: State, r: Replies) -> (Completion, State)
    decreases r.iterations - s.cursor.iterations, 1int, st, 0int,
{
    match st {
        Stmt::While { condition, body } => {
            let (x, s1) = eval(*condition, s, r);
            match x {
                Step::Done(v) => if !truthy(v) {
                    (Step::Done(None), s1)
                } else if !steps_within(s, s1, r) || s1.cursor.iterations >= r.iterations {
                    wait(s1)
                } else {
                    let s2 = at_cursor(s1, Cursor { iterations: (s1.cursor.iterations + 1) as usize, ..s1.cursor });
                    let (y, s3) = exec_stmt(*body, s2, r);
                    match y {
                        Step::Done(None) => if steps_within(s2, s3, r) {
                            run_while(st, s3, r)
                        } else {
                            wait(s3)
                        },
                        _ => (y, s3),
                    }
                },
                _ => (abandon(x), s1),
            }
        },
        _ => (Step::Done(None), s),
    }
}

/// One turn of a `while` loop, as `run_while` defines it.
proof fn lemma_run_while_unfold(st: Stmt, s: State, r: Replies)
    requires
        st is While,
    ensures
        run_while(st, s, r) == ({
            let (x, s1) = eval(*st->While_condition, s, r);
            match x {
                Step::Done(v) => if !truthy(v) {
                    (Step::Done(None), s1)
                } else if !steps_within(s, s1, r) || s1.cursor.iterations >= r.iterations {
                    wait(s1)
                } else {
                    let s2 = at_cursor(s1, Cursor { iterations: (s1.cursor.iterations + 1) as usize, ..s1.cursor });
                    let (y, s3) = exec_stmt(*st->While_body, s2, r);
                    match y {
                        Step::Done(None) => if steps_within(s2, s3, r) {
                            run_while(st, s3, r)
                        } else {
                            wait(s3)
                        },
                        _ => (y, s3),
                    }
                },
                _ => (abandon(x), s1),
            }
        }),
{
}

/// The order of `b` against `a`, given the order of `a` against `b`.
pub open spec fn flip(o: NumberOrder) -> NumberOrder {
    match o {
        NumberOrder::Less => NumberOrder::Greater,
        NumberOrder::Greater => NumberOrder::Less,
        _ => o,
    }
}

/// Law: comparing two strings the other way round gives the opposite order.
pub proof fn law_string_order_flips(a: Seq<char>, b: Seq<char>)
    ensures
        str_order(b, a) == flip(str_order(a, b)),
    decreases a.len(),
{
    if a.len() > 0 && b.len() > 0 && (a[0] as u32) == (b[0] as u32) {
        law_string_order_flips(a.drop_first(), b.drop_first());
    }
}

/// Law: `>` is `<` with its operands swapped, `>=` is `<=` swapped, and `>=` and `<=` are
/// the negations of `<` and `>`: of an order and of its flip.
pub proof fn law_order_operators(o: NumberOrder)
    ensures
        order_accepts(TokenType::Greater, o) == order_accepts(TokenType::Less, flip(o)),
        order_accepts(TokenType::GreaterEqual, o) == order_accepts(TokenType::LessEqual, flip(o)),
        order_accepts(TokenType::GreaterEqual, o) == !order_accepts(TokenType::Less, o),
        order_accepts(TokenType::LessEqual, o) == !order_accepts(TokenType::Greater, o),
{
}

/// Law: comparing two strings, `a > b` gives what `b < a` gives, `a >= b` what `b <= a`
/// gives, and `a >= b` the negation of `a < b`; a comparison of strings never fails.
pub proof fn law_string_comparison_swap(
    a: Seq<char>,
    b: Seq<char>,
    gt: Token,
    ge: Token,
    lt: Token,
    le: Token,
    r: Replies,
    c: Cursor,
)
    requires
        gt.token_type == TokenType::Greater,
        ge.token_type == TokenType::GreaterEqual,
        lt.token_type == TokenType::Less,
        le.token_type == TokenType::LessEqual,
    ensures
        binary(Value::Str(a), gt, Value::Str(b), r, c) == binary(Value::Str(b), lt, Value::Str(a), r, c),
        binary(Value::Str(a), ge, Value::Str(b), r, c) == binary(Value::Str(b), le, Value::Str(a), r, c),
        binary(Value::Str(a), ge, Value::Str(b), r, c).0 == Step::Done(
            Value::Bool(!(binary(Value::Str(a), lt, Value::Str(b), r, c).0 == Step::Done(Value::Bool(true)))),
        ),
{
    law_string_order_flips(a, b);
    law_order_operators(str_order(a, b));
}

/// Law: comparing two numbers, when the caller answers the comparison of `b` with `a`
/// with the flip of its answer for `a` with `b`, and neither is NaN, `a > b` gives what
/// `b < a` gives and `a >= b` what `b <= a` gives; and with one answer, `a >= b` is the
/// negation of `a < b` and `a <= b` the negation of `a > b`, all without failing.
pub proof fn law_number_comparison_swap(
    a: u64,
    b: u64,
    gt: Token,
    ge: Token,
    lt: Token,
    le: Token,
    r: Replies,
    c: Cursor,
    r2: Replies,
    c2: Cursor,
)
    requires
        gt.token_type == TokenType::Greater,
        ge.token_type == TokenType::GreaterEqual,
        lt.token_type == TokenType::Less,
        le.token_type == TokenType::LessEqual,
        order_reply(r, c) is Some,
        order_reply(r, c).unwrap().0 != NumberOrder::Unordered,
        order_reply(r2, c2) is Some,
        order_reply(r2, c2).unwrap().0 == flip(order_reply(r, c).unwrap().0),
    ensures
        binary(Value::Number(a), gt, Value::Number(b), r, c).0 == binary(Value::Number(b), lt, Value::Number(a), r2, c2).0,
        binary(Value::Number(a), ge, Value::Number(b), r, c).0 == binary(Value::Number(b), le, Value::Number(a), r2, c2).0,
        binary(Value::Number(a), ge, Value::Number(b), r, c).0 == Step::Done(
            Value::Bool(!(binary(Value::Number(a), lt, Value::Number(b), r, c).0 == Step::Done(Value::Bool(true)))),
        ),
        binary(Value::Number(a), le, Value::Number(b), r, c).0 == Step::Done(
            Value::Bool(!(binary(Value::Number(a), gt, Value::Number(b), r, c).0 == Step::Done(Value::Bool(true)))),
        ),
        binary(Value::Number(a), gt, Value::Number(b), r, c).0 is Done,
        binary(Value::Number(a), lt, Value::Number(b), r, c).0 is Done,
{
    law_order_operators(order_reply(r, c).unwrap().0);
}

/// `a` and `b` are booleans, strings or `nil`: values that carry their whole meaning.
pub open spec fn plain(v: Value) -> bool {
    v is Bool || v is Str || v is Nil
}

/// Law: `==` on booleans, strings and `nil` gives `true` exactly when the two values are
/// the same value, and `!=` exactly when they are not; it needs no reply and never fails.
pub proof fn law_plain_equality(a: Value, b: Value, eq: Token, ne: Token, r: Replies, c: Cursor)
    requires
        plain(a),
        plain(b),
        eq.token_type == TokenType::EqualEqual,
        ne.token_type == TokenType::BangEqual,
    ensures
        binary(a, eq, b, r, c) == (Step::Done(Value::Bool(a == b)), c),
        binary(a, ne, b, r, c) == (Step::Done(Value::Bool(a != b)), c),
{
}

/// Law: division by a number first asks how the divisor compares with zero. It fails with
/// "Division by zero." exactly when the answer is `Equal`; for any other answer (`Less`,
/// `Greater`, or `Unordered` for NaN) its result is the caller's answer to `Divide(a, b)`.
pub proof fn law_division_by_zero_only(a: u64, b: u64, op: Token, r: Replies, c: Cursor)
    requires
        op.token_type == TokenType::Slash,
    ensures
        order_reply(r, c) is None ==> binary(Value::Number(a), op, Value::Number(b), r, c) == (
            Step::<Value>::Pending(Request::Compare(b, 0)),
            c,
        ),
        order_reply(r, c) matches Some((o, c2)) ==> {
            &&& (binary(Value::Number(a), op, Value::Number(b), r, c).0 == Step::<Value>::Failed(
                op,
                "Division by zero."@,
            )) <==> o == NumberOrder::Equal
            &&& o != NumberOrder::Equal ==> binary(Value::Number(a), op, Value::Number(b), r, c) == match number_reply(r, c2) {
                Some((n, c3)) => (Step::Done(Value::Number(n)), c3),
                None => (Step::Pending(Request::Divide(a, b)), c2),
            }
        },
{
}

/// Law: a `return` completes abruptly: when it completes it returns a value (`nil` for a
/// bare `return`, which touches nothing), so the statements after it are not run.
pub proof fn law_return_ends_body(stmts: Seq<Stmt>, i: int, s: State, r: Replies)
    requires
        0 <= i < stmts.len(),
        stmts[i] is Return,
    ensures
        exec_stmt(stmts[i], s, r).0 is Done ==> exec_stmt(stmts[i], s, r).0 matches Step::Done(Some(_)),
        exec_from(stmts, i, s, r) == exec_stmt(stmts[i], s, r),
        stmts[i]->Return_value is None ==> exec_stmt(stmts[i], s, r) == (Step::<Option<Value>>::Done(Some(Value::Nil)), s),
{
}

/// Law: a call whose body begins with a bare `return` gives `nil`, and prints nothing.
pub proof fn law_bare_return_call(fun: Fun, args: Seq<Value>, st: State, r: Replies)
    requires
        fun.body.len() > 0,
        fun.body[0] is Return,
        fun.body[0]->Return_value is None,
    ensures
        invoke(fun, args, st, r).0 == Step::Done(Value::Nil),
        invoke(fun, args, st, r).1.out == st.out,
{
    let frame = Scope {
        vars: bind_params(fun.params, args, bound_count(fun.params.len(), args.len())),
        enclosing: Some(fun.closure),
    };
    let s1 = State { scopes: st.scopes.push(frame), env: st.scopes.len() as usize, ..st };
    law_return_ends_body(fun.body, 0, s1, r);
}

/// No two of the first `n` parameters share a name.
pub open spec fn distinct_params(params: Seq<Token>, n: nat) -> bool {
    forall|i: int, j: int| 0 <= i < j < n ==> params[i].lexeme@ != params[j].lexeme@
}

/// Law: binding parameters binds each of the first `n` parameters, with distinct names,
/// to the argument at its own position, and binds no other name.
pub proof fn law_bind_params_positions(params: Seq<Token>, args: Seq<Value>, n: nat, k: int, other: Seq<char>)
    requires
        n <= params.len(),
        n <= args.len(),
        distinct_params(params, n),
        0 <= k < n,
    ensures
        bind_params(params, args, n).contains_key(params[k].lexeme@),
        bind_params(params, args, n)[params[k].lexeme@] == args[k],
        (forall|j: int| 0 <= j < n ==> params[j].lexeme@ != other) ==> !bind_params(params, args, n).contains_key(other),
    decreases n,
{
    if k < n - 1 {
        law_bind_params_positions(params, args, (n - 1) as nat, k, other);
    } else if n > 1 {
        law_bind_params_positions(params, args, (n - 1) as nat, 0, other);
    }
}

/// Law: inside a call of `fun` on as many arguments as it has parameters, with distinct
/// names, each parameter is looked up as the argument at its own position.
pub proof fn law_call_binds_arguments(fun: Fun, args: Seq<Value>, st: State, k: int)
    requires
        args.len() == fun.params.len(),
        distinct_params(fun.params, fun.params.len()),
        0 <= k < args.len(),
        st.scopes.len() < usize::MAX,
    ensures
        resolve(
            st.scopes.push(Scope {
                vars: bind_params(fun.params, args, bound_count(fun.params.len(), args.len())),
                enclosing: Some(fun.closure),
            }),
            st.scopes.len() as int,
            fun.params[k].lexeme@,
        ) == Some(args[k]),
{
    law_bind_params_positions(fun.params, args, args.len(), k, fun.params[k].lexeme@);
}

/// Law: equality does not depend on the order of the operands, `!=` gives the negation
/// of `==`, equality never fails, and it waits on a reply only for two numbers.
pub proof fn law_equality_symmetric(a: Value, b: Value, negate: bool, r: Replies, c: Cursor)
    ensures
        same_value(a, b) == same_value(b, a),
        equality(a, b, negate, r, c).0 is Done ==> equality(b, a, negate, r, c) == equality(a, b, negate, r, c),
        equality(a, b, false, r, c).0 matches Step::Done(Value::Bool(x)) ==> equality(a, b, true, r, c)
            == (Step::Done(Value::Bool(!x)), equality(a, b, false, r, c).1),
        !(equality(a, b, negate, r, c).0 is Failed),
        equality(a, b, negate, r, c).0 is Pending ==> a is Number && b is Number,
{
}

/// `st1` runs in the scope `st` runs in, and holds every scope of `st` as it was, perhaps
/// with new scopes after them.
pub open spec fn keeps_scopes(st: State, st1: State) -> bool {
    &&& st1.env == st.env
    &&& st.scopes.len() <= st1.scopes.len()
    &&& forall|i: int| 0 <= i < st.scopes.len() ==> #[trigger] st1.scopes[i] == st.scopes[i]
}

proof fn lemma_keeps_scopes_trans(a: State, b: State, c: State)
    requires
        keeps_scopes(a, b),
        keeps_scopes(b, c),
    ensures
        keeps_scopes(a, c),
{
    assert forall|i: int| 0 <= i < a.scopes.len() implies #[trigger] c.scopes[i] == a.scopes[i] by {
        assert(c.scopes[i] == b.scopes[i]);
    }
}

/// An expression that assigns no variable and calls no function.
pub open spec fn binding_free(e: Expr) -> bool
    decreases e,
{
    match e {
        Expr::Assign { .. } | Expr::Call { .. } => false,
        Expr::Grouping { expression, .. } => binding_free(*expression),
        Expr::Logical { left, right, .. } | Expr::Binary { left, right, .. } => binding_free(*left)
            && binding_free(*right),
        Expr::Unary { right, .. } => binding_free(*right),
        Expr::Ternary { condition, then_branch, else_branch, .. } => binding_free(*condition)
            && binding_free(*then_branch) && binding_free(*else_branch),
        Expr::Get { object, .. } => binding_free(*object),
        Expr::SetField { object, value, .. } => binding_free(*object) && binding_free(*value),
        _ => true,
    }
}

/// Law: evaluating an expression that assigns no variable and calls no function (it may
/// read properties, set fields and use `super`) changes no binding: the current scope
/// stays the current one, every scope stays as it was, and scopes may only be added.
pub proof fn law_binding_free_keeps_scopes(e: Expr, st: State, r: Replies)
    requires
        binding_free(e),
    ensures
        keeps_scopes(st, eval(e, st, r).1),
    decreases e,
{
    match e {
        Expr::Grouping { expression, .. } => law_binding_free_keeps_scopes(*expression, st, r),
        Expr::Unary { right, .. } => law_binding_free_keeps_scopes(*right, st, r),
        Expr::Logical { left, right, .. } | Expr::Binary { left, right, .. } => {
            law_binding_free_keeps_scopes(*left, st, r);
            let s1 = eval(*left, st, r).1;
            law_binding_free_keeps_scopes(*right, s1, r);
            lemma_keeps_scopes_trans(st, s1, eval(*right, s1, r).1);
        },
        Expr::Ternary { condition, then_branch, else_branch, .. } => {
            law_binding_free_keeps_scopes(*condition, st, r);
            let s1 = eval(*condition, st, r).1;
            law_binding_free_keeps_scopes(*then_branch, s1, r);
            law_binding_free_keeps_scopes(*else_branch, s1, r);
            lemma_keeps_scopes_trans(st, s1, eval(*then_branch, s1, r).1);
            lemma_keeps_scopes_trans(st, s1, eval(*else_branch, s1, r).1);
        },
        Expr::Get { object, name, .. } => {
            law_binding_free_keeps_scopes(*object, st, r);
            let (x, s1) = eval(*object, st, r);
            if let Step::Done(ov) = x {
                if ov is Instance && ov->Instance_0 < s1.objects.len() {
                    let k = ov->Instance_0;
                    if !s1.objects[k as int].fields.contains_key(name.lexeme@) {
                        if let Some(m) = find_method(s1.classes, s1.objects[k as int].class as int, name.lexeme@) {
                            lemma_keeps_scopes_trans(st, s1, bind(s1, m, k).1);
                        }
                    }
                }
            }
        },
        Expr::SetField { object, value, .. } => {
            law_binding_free_keeps_scopes(*object, st, r);
            let s1 = eval(*object, st, r).1;
            law_binding_free_keeps_scopes(*value, s1, r);
            lemma_keeps_scopes_trans(st, s1, eval(*value, s1, r).1);
        },
        _ => {},
    }
}

/// An expression that assigns no variable or field, calls no function, and reads no
/// property (reading a method binds it to its instance).
pub open spec fn quiet(e: Expr) -> bool
    decreases e,
{
    match e {
        Expr::Assign { .. } | Expr::Call { .. } | Expr::Get { .. } | Expr::SetField { .. } | Expr::Super { .. } => false,
        Expr::Grouping { expression, .. } => quiet(*expression),
        Expr::Logical { left, right, .. } | Expr::Binary { left, right, .. } => quiet(*left) && quiet(*right),
        Expr::Unary { right, .. } => quiet(*right),
        Expr::Ternary { condition, then_branch, else_branch, .. } => quiet(*condition) && quiet(*then_branch)
            && quiet(*else_branch),
        _ => true,
    }
}

/// Law: a parenthesized expression evaluates as the expression inside, and a literal
/// gives its value and leaves the state as it was.
pub proof fn law_grouping_and_literal(inner: Expr, value: Literal, id: usize, st: State, r: Replies)
    ensures
        eval(Expr::Grouping { expression: Box::new(inner), id }, st, r) == eval(inner, st, r),
        eval(Expr::Literal { value, id }, st, r) == (Step::Done(value@), st),
{
}

/// Law: evaluating an expression that assigns nothing, calls nothing and reads no
/// property changes nothing but the replies used: the scopes, the functions, classes and
/// instances, the current scope and the lines printed stay as they were.
pub proof fn law_quiet_keeps_state(e: Expr, st: State, r: Replies)
    requires
        quiet(e),
    ensures
        eval(e, st, r).1 == at_cursor(st, eval(e, st, r).1.cursor),
    decreases e,
{
    match e {
        Expr::Grouping { expression, .. } => law_quiet_keeps_state(*expression, st, r),
        Expr::Unary { right, .. } => law_quiet_keeps_state(*right, st, r),
        Expr::Logical { left, right, .. } | Expr::Binary { left, right, .. } => {
            law_quiet_keeps_state(*left, st, r);
            let s1 = eval(*left, st, r).1;
            law_quiet_keeps_state(*right, s1, r);
        },
        Expr::Ternary { condition, then_branch, else_branch, .. } => {
            law_quiet_keeps_state(*condition, st, r);
            let s1 = eval(*condition, st, r).1;
            law_quiet_keeps_state(*then_branch, s1, r);
            law_quiet_keeps_state(*else_branch, s1, r);
        },
        _ => {},
    }
}

/// `r2` holds every reply that `r` holds, at the same place, and perhaps more.
pub open spec fn extends(r: Replies, r2: Replies) -> bool {
    &&& r.numbers@.len() <= r2.numbers@.len()
    &&& forall|k: int| 0 <= k < r.numbers@.len() ==> r2.numbers@[k] == r.numbers@[k]
    &&& r.orders@.len() <= r2.orders@.len()
    &&& forall|k: int| 0 <= k < r.orders@.len() ==> r2.orders@[k] == r.orders@[k]
    &&& r.texts@.len() <= r2.texts@.len()
    &&& forall|k: int| 0 <= k < r.texts@.len() ==> r2.texts@[k]@ == r.texts@[k]@
    &&& r.iterations <= r2.iterations
}

proof fn lemma_replies_extend(r: Replies, r2: Replies, c: Cursor)
    requires
        extends(r, r2),
    ensures
        number_reply(r, c) is Some ==> number_reply(r2, c) == number_reply(r, c),
        order_reply(r, c) is Some ==> order_reply(r2, c) == order_reply(r, c),
        text_reply(r, c) is Some ==> text_reply(r2, c) == text_reply(r, c),
{
}

proof fn lemma_operations_extend(l: Value, op: Token, rv: Value, r: Replies, r2: Replies, c: Cursor)
    requires
        extends(r, r2),
    ensures
        !(binary(l, op, rv, r, c).0 is Pending) ==> binary(l, op, rv, r2, c) == binary(l, op, rv, r, c),
        !(unary(op, rv, r, c).0 is Pending) ==> unary(op, rv, r2, c) == unary(op, rv, r, c),
{
    lemma_replies_extend(r, r2, c);
    match order_reply(r, c) {
        Some((o, c2)) => lemma_replies_extend(r, r2, c2),
        None => {},
    }
}

proof fn lemma_show_extend(v: Value, cl: Seq<ClassDef>, ob: Seq<Obj>, r: Replies, r2: Replies, c: Cursor)
    requires
        extends(r, r2),
    ensures
        !(show(v, cl, ob, r, c).0 is Pending) ==> show(v, cl, ob, r2, c) == show(v, cl, ob, r, c),
{
    lemma_replies_extend(r, r2, c);
}

proof fn lemma_eval_extend(e: Expr, st: State, r: Replies, r2: Replies)
    requires
        extends(r, r2),
        !(eval(e, st, r).0 is Pending),
    ensures
        eval(e, st, r2) == eval(e, st, r),
    decreases r.iterations - st.cursor.iterations, 0int, e, 0int,
{
    match e {
        Expr::Grouping { expression, .. } => lemma_eval_extend(*expression, st, r, r2),
        Expr::Assign { value, .. } => lemma_eval_extend(*value, st, r, r2),
        Expr::Logical { left, operator, right, .. } => {
            lemma_eval_extend(*left, st, r, r2);
            let (x, s1) = eval(*left, st, r);
            if let Step::Done(v) = x {
                if (operator.token_type == TokenType::Or) != truthy(v) && steps_within(st, s1, r) {
                    lemma_eval_extend(*right, s1, r, r2);
                }
            }
        },
        Expr::Unary { operator, right, .. } => {
            lemma_eval_extend(*right, st, r, r2);
            let (x, s1) = eval(*right, st, r);
            if let Step::Done(v) = x {
                lemma_operations_extend(v, operator, v, r, r2, s1.cursor);
            }
        },
        Expr::Binary { left, operator, right, .. } => {
            lemma_eval_extend(*left, st, r, r2);
            let (x, s1) = eval(*left, st, r);
            if let Step::Done(lv) = x {
                if steps_within(st, s1, r) {
                    lemma_eval_extend(*right, s1, r, r2);
                    let (y, s2) = eval(*right, s1, r);
                    if let Step::Done(rv) = y {
                        lemma_operations_extend(lv, operator, rv, r, r2, s2.cursor);
                    }
                }
            }
        },
        Expr::Ternary { condition, then_branch, else_branch, .. } => {
            lemma_eval_extend(*condition, st, r, r2);
            let (x, s1) = eval(*condition, st, r);
            if let Step::Done(v) = x {
                if steps_within(st, s1, r) {
                    if v == Value::Bool(true) {
                        lemma_eval_extend(*then_branch, s1, r, r2);
                    } else {
                        lemma_eval_extend(*else_branch, s1, r, r2);
                    }
                }
            }
        },
        Expr::Get { object, .. } => lemma_eval_extend(*object, st, r, r2),
        Expr::SetField { object, value, .. } => {
            lemma_eval_extend(*object, st, r, r2);
            let (x, s1) = eval(*object, st, r);
            if let Step::Done(ov) = x {
                if ov is Instance && ov->Instance_0 < s1.objects.len() && steps_within(st, s1, r) {
                    lemma_eval_extend(*value, s1, r, r2);
                }
            }
        },
        Expr::Call { callee: f, arguments, .. } => {
            lemma_eval_extend(*f, st, r, r2);
            let (x, s1) = eval(*f, st, r);
            if let Step::Done(fv) = x {
                if steps_within(st, s1, r) {
                    lemma_eval_args_extend(arguments@, 0, s1, r, r2);
                    let (y, s2) = eval_args(arguments@, 0, s1, r);
                    if let Step::Done(args) = y {
                        if steps_within(st, s2, r) {
                            if let Some(fun) = callee(fv, s2.funs) {
                                if args.len() == fun.params.len() && s2.cursor.iterations < r.iterations {
                                    lemma_invoke_extend(
                                        fun,
                                        args,
                                        at_cursor(s2, Cursor { iterations: (s2.cursor.iterations + 1) as usize, ..s2.cursor }),
                                        r,
                                        r2,
                                    );
                                }
                            }
                        }
                    }
                }
            }
        },
        _ => {},
    }
}

proof fn lemma_eval_args_extend(args: Seq<Expr>, i: int, st: State, r: Replies, r2: Replies)
    requires
        extends(r, r2),
        !(eval_args(args, i, st, r).0 is Pending),
    ensures
        eval_args(args, i, st, r2) == eval_args(args, i, st, r),
    decreases r.iterations - st.cursor.iterations, 0int, args, args.len() - i,
{
    if 0 <= i < args.len() {
        lemma_eval_extend(args[i], st, r, r2);
        let (x, s1) = eval(args[i], st, r);
        if x is Done && steps_within(st, s1, r) {
            lemma_eval_args_extend(args, i + 1, s1, r, r2);
        }
    }
}

proof fn lemma_invoke_extend(fun: Fun, args: Seq<Value>, st: State, r: Replies, r2: Replies)
    requires
        extends(r, r2),
        !(invoke(fun, args, st, r).0 is Pending),
    ensures
        invoke(fun, args, st, r2) == invoke(fun, args, st, r),
    decreases r.iterations - st.cursor.iterations, 1int, fun.body, fun.body.len() + 1,
{
    let frame = Scope {
        vars: bind_params(fun.params, args, bound_count(fun.params.len(), args.len())),
        enclosing: Some(fun.closure),
    };
    let s1 = State { scopes: st.scopes.push(frame), env: st.scopes.len() as usize, ..st };
    lemma_exec_from_extend(fun.body, 0, s1, r, r2);
}

proof fn lemma_exec_stmt_extend(st: Stmt, s: State, r: Replies, r2: Replies)
    requires
        extends(r, r2),
        !(exec_stmt(st, s, r).0 is Pending),
    ensures
        exec_stmt(st, s, r2) == exec_stmt(st, s, r),
    decreases r.iterations - s.cursor.iterations, 1int, st, 1int,
{
    match st {
        Stmt::Expression { expression } => lemma_eval_extend(*expression, s, r, r2),
        Stmt::Print { expression } => {
            lemma_eval_extend(*expression, s, r, r2);
            let (x, s1) = eval(*expression, s, r);
            if let Step::Done(v) = x {
                lemma_show_extend(v, s1.classes, s1.objects, r, r2, s1.cursor);
            }
        },
        Stmt::Var { initializer, .. } => lemma_eval_extend(*initializer, s, r, r2),
        Stmt::Block { statements } => {
            let s1 = State { scopes: s.scopes.push(empty_scope(Some(s.env))), env: s.scopes.len() as usize, ..s };
            lemma_exec_from_extend(statements@, 0, s1, r, r2);
        },
        Stmt::If { condition, then_branch, else_branch } => {
            lemma_eval_extend(*condition, s, r, r2);
            let (x, s1) = eval(*condition, s, r);
            if let Step::Done(v) = x {
                if steps_within(s, s1, r) {
                    if truthy(v) {
                        lemma_exec_stmt_extend(*then_branch, s1, r, r2);
                    } else if let Some(b) = else_branch {
                        lemma_exec_stmt_extend(*b, s1, r, r2);
                    }
                }
            }
        },
        Stmt::While { .. } => lemma_run_while_extend(st, s, r, r2),
        Stmt::Function { .. } | Stmt::Class { .. } => {},
        Stmt::Return { value, .. } => {
            if let Some(e) = value {
                lemma_eval_extend(*e, s, r, r2);
            }
        },
    }
}

proof fn lemma_exec_from_extend(stmts: Seq<Stmt>, i: int, s: State, r: Replies, r2: Replies)
    requires
        extends(r, r2),
        !(exec_from(stmts, i, s, r).0 is Pending),
    ensures
        exec_from(stmts, i, s, r2) == exec_from(stmts, i, s, r),
    decreases r.iterations - s.cursor.iterations, 1int, stmts, stmts.len() - i,
{
    if 0 <= i < stmts.len() {
        lemma_exec_stmt_extend(stmts[i], s, r, r2);
        let (x, s1) = exec_stmt(stmts[i], s, r);
        if x == Step::<Option<Value>>::Done(None) && steps_within(s, s1, r) {
            lemma_exec_from_extend(stmts, i + 1, s1, r, r2);
        }
    }
}

proof fn lemma_run_while_extend(st: Stmt, s: State, r: Replies, r2: Replies)
    requires
        extends(r, r2),
        !(run_while(st, s, r).0 is Pending),
    ensures
        run_while(st, s, r2) == run_while(st, s, r),
    decreases r.iterations - s.cursor.iterations, 1int, st, 0int,
{
    if let Stmt::While { condition, body } = st {
        lemma_eval_extend(*condition, s, r, r2);
        let (x, s1) = eval(*condition, s, r);
        if let Step::Done(v) = x {
            if truthy(v) && steps_within(s, s1, r) && s1.cursor.iterations < r.iterations {
                let s2 = at_cursor(s1, Cursor { iterations: (s1.cursor.iterations + 1) as usize, ..s1.cursor });
                lemma_exec_stmt_extend(*body, s2, r, r2);
                let (y, s3) = exec_stmt(*body, s2, r);
                if y == Step::<Option<Value>>::Done(None) && steps_within(s2, s3, r) {
                    lemma_run_while_extend(st, s3, r, r2);
                }
            }
        }
    }
}

/// Law: a run retraces itself. A run of statements that did not stop to wait on a reply
/// ends the same way, with the same state, when it is made again with replies that
/// extend the ones it had.
pub proof fn law_replay_stable(stmts: Seq<Stmt>, st: State, r: Replies, r2: Replies)
    requires
        extends(r, r2),
        !(run_program(stmts, st, r).0 is Pending),
    ensures
        run_program(stmts, st, r2) == run_program(stmts, st, r),
{
    lemma_exec_from_extend(stmts, 0, fresh(st), r, r2);
}

/// Law: the same holds of one expression.
pub proof fn law_replay_stable_expression(e: Expr, st: State, r: Replies, r2: Replies)
    requires
        extends(r, r2),
        !(eval(e, st, r).0 is Pending),
    ensures
        eval(e, st, r2) == eval(e, st, r),
{
    lemma_eval_extend(e, st, r, r2);
}

/// `b` holds every line of `a` at the same place, and perhaps more after them.
pub open spec fn lines_extend(a: Seq<Seq<char>>, b: Seq<Seq<char>>) -> bool {
    &&& a.len() <= b.len()
    &&& forall|i: int| 0 <= i < a.len() ==> #[trigger] b[i] == a[i]
}

proof fn lemma_lines_trans(a: Seq<Seq<char>>, b: Seq<Seq<char>>, c: Seq<Seq<char>>)
    requires
        lines_extend(a, b),
        lines_extend(b, c),
    ensures
        lines_extend(a, c),
{
    assert forall|i: int| 0 <= i < a.len() implies #[trigger] c[i] == a[i] by {
        assert(c[i] == b[i]);
    }
}

proof fn lemma_eval_grows(e: Expr, st: State, r: Replies)
    ensures
        lines_extend(st.out, eval(e, st, r).1.out),
    decreases r.iterations - st.cursor.iterations, 0int, e, 0int,
{
    match e {
        Expr::Grouping { expression, .. } => lemma_eval_grows(*expression, st, r),
        Expr::Assign { value, .. } => lemma_eval_grows(*value, st, r),
        Expr::Unary { right, .. } => lemma_eval_grows(*right, st, r),
        Expr::Get { object, .. } => lemma_eval_grows(*object, st, r),
        Expr::Logical { left, right, .. } | Expr::Binary { left, right, .. } => {
            lemma_eval_grows(*left, st, r);
            let s1 = eval(*left, st, r).1;
            if steps_within(st, s1, r) {
                lemma_eval_grows(*right, s1, r);
                lemma_lines_trans(st.out, s1.out, eval(*right, s1, r).1.out);
            }
        },
        Expr::SetField { object, value, .. } => {
            lemma_eval_grows(*object, st, r);
            let s1 = eval(*object, st, r).1;
            if steps_within(st, s1, r) {
                lemma_eval_grows(*value, s1, r);
                lemma_lines_trans(st.out, s1.out, eval(*value, s1, r).1.out);
            }
        },
        Expr::Ternary { condition, then_branch, else_branch, .. } => {
            lemma_eval_grows(*condition, st, r);
            let s1 = eval(*condition, st, r).1;
            if steps_within(st, s1, r) {
                lemma_eval_grows(*then_branch, s1, r);
                lemma_eval_grows(*else_branch, s1, r);
                lemma_lines_trans(st.out, s1.out, eval(*then_branch, s1, r).1.out);
                lemma_lines_trans(st.out, s1.out, eval(*else_branch, s1, r).1.out);
            }
        },
        Expr::Call { callee: f, arguments, .. } => {
            lemma_eval_grows(*f, st, r);
            let s1 = eval(*f, st, r).1;
            if steps_within(st, s1, r) {
                lemma_eval_args_grows(arguments@, 0, s1, r);
                let (y, s2) = eval_args(arguments@, 0, s1, r);
                lemma_lines_trans(st.out, s1.out, s2.out);
                if steps_within(st, s2, r) && s2.cursor.iterations < r.iterations {
                    if let Step::Done(args) = y {
                        if let Step::Done(fv) = eval(*f, st, r).0 {
                            if let Some(fun) = callee(fv, s2.funs) {
                                let s3 = at_cursor(s2, Cursor { iterations: (s2.cursor.iterations + 1) as usize, ..s2.cursor });
                                lemma_invoke_grows(fun, args, s3, r);
                                lemma_lines_trans(st.out, s2.out, invoke(fun, args, s3, r).1.out);
                            }
                        }
                    }
                }
            }
        },
        _ => {},
    }
}

proof fn lemma_eval_args_grows(args: Seq<Expr>, i: int, st: State, r: Replies)
    ensures
        lines_extend(st.out, eval_args(args, i, st, r).1.out),
    decreases r.iterations - st.cursor.iterations, 0int, args, args.len() - i,
{
    if 0 <= i < args.len() {
        lemma_eval_grows(args[i], st, r);
        let s1 = eval(args[i], st, r).1;
        if steps_within(st, s1, r) {
            lemma_eval_args_grows(args, i + 1, s1, r);
            lemma_lines_trans(st.out, s1.out, eval_args(args, i + 1, s1, r).1.out);
        }
    }
}

proof fn lemma_invoke_grows(fun: Fun, args: Seq<Value>, st: State, r: Replies)
    ensures
        lines_extend(st.out, invoke(fun, args, st, r).1.out),
    decreases r.iterations - st.cursor.iterations, 1int, fun.body, fun.body.len() + 1,
{
    let frame = Scope {
        vars: bind_params(fun.params, args, bound_count(fun.params.len(), args.len())),
        enclosing: Some(fun.closure),
    };
    let s1 = State { scopes: st.scopes.push(frame), env: st.scopes.len() as usize, ..st };
    lemma_exec_from_grows(fun.body, 0, s1, r);
}

proof fn lemma_exec_stmt_grows(st: Stmt, s: State, r: Replies)
    ensures
        lines_extend(s.out, exec_stmt(st, s, r).1.out),
    decreases r.iterations - s.cursor.iterations, 1int, st, 1int,
{
    match st {
        Stmt::Expression { expression } => lemma_eval_grows(*expression, s, r),
        Stmt::Print { expression } => {
            lemma_eval_grows(*expression, s, r);
            let s1 = eval(*expression, s, r).1;
            lemma_lines_trans(s.out, s1.out, exec_stmt(st, s, r).1.out);
        },
        Stmt::Var { initializer, .. } => lemma_eval_grows(*initializer, s, r),
        Stmt::Block { statements } => {
            let s1 = State { scopes: s.scopes.push(empty_scope(Some(s.env))), env: s.scopes.len() as usize, ..s };
            lemma_exec_from_grows(statements@, 0, s1, r);
        },
        Stmt::If { condition, then_branch, else_branch } => {
            lemma_eval_grows(*condition, s, r);
            let s1 = eval(*condition, s, r).1;
            if steps_within(s, s1, r) {
                lemma_exec_stmt_grows(*then_branch, s1, r);
                lemma_lines_trans(s.out, s1.out, exec_stmt(*then_branch, s1, r).1.out);
                if let Some(b) = else_branch {
                    lemma_exec_stmt_grows(*b, s1, r);
                    lemma_lines_trans(s.out, s1.out, exec_stmt(*b, s1, r).1.out);
                }
            }
        },
        Stmt::While { .. } => lemma_run_while_grows(st, s, r),
        Stmt::Function { .. } | Stmt::Class { .. } => {},
        Stmt::Return { value, .. } => {
            if let Some(e) = value {
                lemma_eval_grows(*e, s, r);
            }
        },
    }
}

proof fn lemma_exec_from_grows(stmts: Seq<Stmt>, i: int, s: State, r: Replies)
    ensures
        lines_extend(s.out, exec_from(stmts, i, s, r).1.out),
    decreases r.iterations - s.cursor.iterations, 1int, stmts, stmts.len() - i,
{
    if 0 <= i < stmts.len() {
        lemma_exec_stmt_grows(stmts[i], s, r);
        let s1 = exec_stmt(stmts[i], s, r).1;
        if steps_within(s, s1, r) {
            lemma_exec_from_grows(stmts, i + 1, s1, r);
            lemma_lines_trans(s.out, s1.out, exec_from(stmts, i + 1, s1, r).1.out);
        }
    }
}

proof fn lemma_run_while_grows(st: Stmt, s: State, r: Replies)
    ensures
        lines_extend(s.out, run_while(st, s, r).1.out),
    decreases r.iterations - s.cursor.iterations, 1int, st, 0int,
{
    if let Stmt::While { condition, body } = st {
        lemma_eval_grows(*condition, s, r);
        let s1 = eval(*condition, s, r).1;
        if steps_within(s, s1, r) && s1.cursor.iterations < r.iterations {
            let s2 = at_cursor(s1, Cursor { iterations: (s1.cursor.iterations + 1) as usize, ..s1.cursor });
            lemma_exec_stmt_grows(*body, s2, r);
            let s3 = exec_stmt(*body, s2, r).1;
            lemma_lines_trans(s.out, s1.out, s3.out);
            if steps_within(s2, s3, r) {
                lemma_run_while_grows(st, s3, r);
                lemma_lines_trans(s.out, s3.out, run_while(st, s3, r).1.out);
            }
        }
    }
}

proof fn lemma_eval_prefix(e: Expr, st: State, r: Replies, r2: Replies)
    requires
        extends(r, r2),
    ensures
        lines_extend(eval(e, st, r).1.out, eval(e, st, r2).1.out),
    decreases r.iterations - st.cursor.iterations, 0int, e, 0int,
{
    if !(eval(e, st, r).0 is Pending) {
        lemma_eval_extend(e, st, r, r2);
    } else {
        match e {
            Expr::Grouping { expression, .. } => lemma_eval_prefix(*expression, st, r, r2),
            Expr::Assign { value, .. } => lemma_eval_prefix(*value, st, r, r2),
            Expr::Unary { right, .. } => {
                lemma_eval_prefix(*right, st, r, r2);
                if !(eval(*right, st, r).0 is Pending) {
                    lemma_eval_extend(*right, st, r, r2);
                }
            },
            Expr::Get { object, .. } => {
                lemma_eval_prefix(*object, st, r, r2);
                if !(eval(*object, st, r).0 is Pending) {
                    lemma_eval_extend(*object, st, r, r2);
                }
            },
            Expr::Logical { left, right, .. } | Expr::Binary { left, right, .. } => {
                lemma_eval_prefix(*left, st, r, r2);
                let (x, s1) = eval(*left, st, r);
                let s1b = eval(*left, st, r2).1;
                lemma_eval_grows(*right, s1b, r2);
                lemma_lines_trans(s1.out, s1b.out, eval(*right, s1b, r2).1.out);
                if !(x is Pending) {
                    lemma_eval_extend(*left, st, r, r2);
                    if steps_within(st, s1, r) {
                        lemma_eval_prefix(*right, s1, r, r2);
                        if !(eval(*right, s1, r).0 is Pending) {
                            lemma_eval_extend(*right, s1, r, r2);
                        }
                    }
                }
            },
            Expr::SetField { object, value, .. } => {
                lemma_eval_prefix(*object, st, r, r2);
                let (x, s1) = eval(*object, st, r);
                let s1b = eval(*object, st, r2).1;
                lemma_eval_grows(*value, s1b, r2);
                lemma_lines_trans(s1.out, s1b.out, eval(*value, s1b, r2).1.out);
                if !(x is Pending) {
                    lemma_eval_extend(*object, st, r, r2);
                    if steps_within(st, s1, r) {
                        lemma_eval_prefix(*value, s1, r, r2);
                    }
                }
            },
            Expr::Ternary { condition, then_branch, else_branch, .. } => {
                lemma_eval_prefix(*condition, st, r, r2);
                let (x, s1) = eval(*condition, st, r);
                let s1b = eval(*condition, st, r2).1;
                lemma_eval_grows(*then_branch, s1b, r2);
                lemma_eval_grows(*else_branch, s1b, r2);
                lemma_lines_trans(s1.out, s1b.out, eval(*then_branch, s1b, r2).1.out);
                lemma_lines_trans(s1.out, s1b.out, eval(*else_branch, s1b, r2).1.out);
                if !(x is Pending) {
                    lemma_eval_extend(*condition, st, r, r2);
                    if steps_within(st, s1, r) {
                        lemma_eval_prefix(*then_branch, s1, r, r2);
                        lemma_eval_prefix(*else_branch, s1, r, r2);
                    }
                }
            },
            Expr::Call { callee: f, arguments, .. } => {
                lemma_eval_prefix(*f, st, r, r2);
                let (x, s1) = eval(*f, st, r);
                let (x2, s1b) = eval(*f, st, r2);
                lemma_eval_args_grows(arguments@, 0, s1b, r2);
                let (y2, s2b) = eval_args(arguments@, 0, s1b, r2);
                lemma_lines_trans(s1.out, s1b.out, s2b.out);
                if let (Step::Done(fv2), Step::Done(args2)) = (x2, y2) {
                    if let Some(fun) = callee(fv2, s2b.funs) {
                        let s3b = at_cursor(s2b, Cursor { iterations: (s2b.cursor.iterations + 1) as usize, ..s2b.cursor });
                        lemma_invoke_grows(fun, args2, s3b, r2);
                        lemma_lines_trans(s1.out, s2b.out, invoke(fun, args2, s3b, r2).1.out);
                    }
                }
                if !(x is Pending) {
                    lemma_eval_extend(*f, st, r, r2);
                    if steps_within(st, s1, r) {
                        lemma_eval_args_prefix(arguments@, 0, s1, r, r2);
                        let (y, s2) = eval_args(arguments@, 0, s1, r);
                        lemma_lines_trans(s2.out, s2b.out, eval(e, st, r2).1.out);
                        if !(y is Pending) {
                            lemma_eval_args_extend(arguments@, 0, s1, r, r2);
                            if let (Step::Done(fv), Step::Done(args)) = (x, y) {
                                if steps_within(st, s2, r) {
                                    if let Some(fun) = callee(fv, s2.funs) {
                                        if args.len() == fun.params.len() && s2.cursor.iterations < r.iterations {
                                            lemma_invoke_prefix(
                                                fun,
                                                args,
                                                at_cursor(s2, Cursor { iterations: (s2.cursor.iterations + 1) as usize, ..s2.cursor }),
                                                r,
                                                r2,
                                            );
                                        }
                                    }
                                }
                            }
                        }
                    }
                }
            },
            _ => {},
        }
    }
}

proof fn lemma_eval_args_prefix(args: Seq<Expr>, i: int, st: State, r: Replies, r2: Replies)
    requires
        extends(r, r2),
    ensures
        lines_extend(eval_args(args, i, st, r).1.out, eval_args(args, i, st, r2).1.out),
    decreases r.iterations - st.cursor.iterations, 0int, args, args.len() - i,
{
    if !(eval_args(args, i, st, r).0 is Pending) {
        lemma_eval_args_extend(args, i, st, r, r2);
    } else {
        if 0 <= i < args.len() {
            lemma_eval_prefix(args[i], st, r, r2);
            let (x, s1) = eval(args[i], st, r);
            let s1b = eval(args[i], st, r2).1;
            lemma_eval_args_grows(args, i + 1, s1b, r2);
            lemma_lines_trans(s1.out, s1b.out, eval_args(args, i + 1, s1b, r2).1.out);
            if !(x is Pending) {
                lemma_eval_extend(args[i], st, r, r2);
                if steps_within(st, s1, r) {
                    lemma_eval_args_prefix(args, i + 1, s1, r, r2);
                }
            }
        }
    }
}

proof fn lemma_invoke_prefix(fun: Fun, args: Seq<Value>, st: State, r: Replies, r2: Replies)
    requires
        extends(r, r2),
    ensures
        lines_extend(invoke(fun, args, st, r).1.out, invoke(fun, args, st, r2).1.out),
    decreases r.iterations - st.cursor.iterations, 1int, fun.body, fun.body.len() + 1,
{
    let frame = Scope {
        vars: bind_params(fun.params, args, bound_count(fun.params.len(), args.len())),
        enclosing: Some(fun.closure),
    };
    let s1 = State { scopes: st.scopes.push(frame), env: st.scopes.len() as usize, ..st };
    lemma_exec_from_prefix(fun.body, 0, s1, r, r2);
}

proof fn lemma_exec_stmt_prefix(st: Stmt, s: State, r: Replies, r2: Replies)
    requires
        extends(r, r2),
    ensures
        lines_extend(exec_stmt(st, s, r).1.out, exec_stmt(st, s, r2).1.out),
    decreases r.iterations - s.cursor.iterations, 1int, st, 1int,
{
    if !(exec_stmt(st, s, r).0 is Pending) {
        lemma_exec_stmt_extend(st, s, r, r2);
    } else {
        match st {
            Stmt::Expression { expression } => lemma_eval_prefix(*expression, s, r, r2),
            Stmt::Var { initializer, .. } => lemma_eval_prefix(*initializer, s, r, r2),
            Stmt::Print { expression } => {
                lemma_eval_prefix(*expression, s, r, r2);
                let (x, s1) = eval(*expression, s, r);
                let s1b = eval(*expression, s, r2).1;
                assert(lines_extend(s1b.out, exec_stmt(st, s, r2).1.out));
                lemma_lines_trans(s1.out, s1b.out, exec_stmt(st, s, r2).1.out);
                if !(x is Pending) {
                    lemma_eval_extend(*expression, s, r, r2);
                    if let Step::Done(v) = x {
                        lemma_show_extend(v, s1.classes, s1.objects, r, r2, s1.cursor);
                    }
                }
            },
            Stmt::Block { statements } => {
                let s1 = State { scopes: s.scopes.push(empty_scope(Some(s.env))), env: s.scopes.len() as usize, ..s };
                lemma_exec_from_prefix(statements@, 0, s1, r, r2);
            },
            Stmt::If { condition, then_branch, else_branch } => {
                lemma_eval_prefix(*condition, s, r, r2);
                let (x, s1) = eval(*condition, s, r);
                let s1b = eval(*condition, s, r2).1;
                lemma_exec_stmt_grows(*then_branch, s1b, r2);
                lemma_lines_trans(s1.out, s1b.out, exec_stmt(*then_branch, s1b, r2).1.out);
                if let Some(b) = else_branch {
                    lemma_exec_stmt_grows(*b, s1b, r2);
                    lemma_lines_trans(s1.out, s1b.out, exec_stmt(*b, s1b, r2).1.out);
                }
                if !(x is Pending) {
                    lemma_eval_extend(*condition, s, r, r2);
                    if steps_within(s, s1, r) {
                        lemma_exec_stmt_prefix(*then_branch, s1, r, r2);
                        if let Some(b) = else_branch {
                            lemma_exec_stmt_prefix(*b, s1, r, r2);
                        }
                    }
                }
            },
            Stmt::While { .. } => lemma_run_while_prefix(st, s, r, r2),
            Stmt::Function { .. } | Stmt::Class { .. } => {},
            Stmt::Return { value, .. } => {
                if let Some(e) = value {
                    lemma_eval_prefix(*e, s, r, r2);
                }
            },
        }
    }
}

proof fn lemma_exec_from_prefix(stmts: Seq<Stmt>, i: int, s: State, r: Replies, r2: Replies)
    requires
        extends(r, r2),
    ensures
        lines_extend(exec_from(stmts, i, s, r).1.out, exec_from(stmts, i, s, r2).1.out),
    decreases r.iterations - s.cursor.iterations, 1int, stmts, stmts.len() - i,
{
    if !(exec_from(stmts, i, s, r).0 is Pending) {
        lemma_exec_from_extend(stmts, i, s, r, r2);
    } else {
        if 0 <= i < stmts.len() {
            lemma_exec_stmt_prefix(stmts[i], s, r, r2);
            let (x, s1) = exec_stmt(stmts[i], s, r);
            let s1b = exec_stmt(stmts[i], s, r2).1;
            lemma_exec_from_grows(stmts, i + 1, s1b, r2);
            lemma_lines_trans(s1.out, s1b.out, exec_from(stmts, i + 1, s1b, r2).1.out);
            if !(x is Pending) {
                lemma_exec_stmt_extend(stmts[i], s, r, r2);
                if steps_within(s, s1, r) {
                    lemma_exec_from_prefix(stmts, i + 1, s1, r, r2);
                }
            }
        }
    }
}

proof fn lemma_run_while_prefix(st: Stmt, s: State, r: Replies, r2: Replies)
    requires
        extends(r, r2),
    ensures
        lines_extend(run_while(st, s, r).1.out, run_while(st, s, r2).1.out),
    decreases r.iterations - s.cursor.iterations, 1int, st, 0int,
{
    if !(run_while(st, s, r).0 is Pending) {
        lemma_run_while_extend(st, s, r, r2);
    } else {
        if let Stmt::While { condition, body } = st {
            lemma_eval_prefix(*condition, s, r, r2);
            let (x, s1) = eval(*condition, s, r);
            let s1b = eval(*condition, s, r2).1;
            let s2b = at_cursor(s1b, Cursor { iterations: (s1b.cursor.iterations + 1) as usize, ..s1b.cursor });
            lemma_exec_stmt_grows(*body, s2b, r2);
            let s3b = exec_stmt(*body, s2b, r2).1;
            lemma_run_while_grows(st, s3b, r2);
            lemma_lines_trans(s1.out, s1b.out, s3b.out);
            lemma_lines_trans(s1.out, s3b.out, run_while(st, s3b, r2).1.out);
            if !(x is Pending) {
                lemma_eval_extend(*condition, s, r, r2);
                if let Step::Done(v) = x {
                    if truthy(v) && steps_within(s, s1, r) && s1.cursor.iterations < r.iterations {
                        let s2 = at_cursor(s1, Cursor { iterations: (s1.cursor.iterations + 1) as usize, ..s1.cursor });
                        lemma_exec_stmt_prefix(*body, s2, r, r2);
                        let (y, s3) = exec_stmt(*body, s2, r);
                        lemma_lines_trans(s3.out, s3b.out, run_while(st, s3b, r2).1.out);
                        if !(y is Pending) {
                            lemma_exec_stmt_extend(*body, s2, r, r2);
                            if y == Step::<Option<Value>>::Done(None) && steps_within(s2, s3, r) {
                                lemma_run_while_prefix(st, s3, r, r2);
                            }
                        }
                    }
                }
            }
        }
    }
}

/// Law: a rerun prints again what the run before it printed. With replies that extend
/// the ones a run had, the lines the rerun prints begin with the lines that run printed,
/// even when that run stopped to wait on a reply.
pub proof fn law_replay_prints_again(stmts: Seq<Stmt>, st: State, r: Replies, r2: Replies)
    requires
        extends(r, r2),
    ensures
        lines_extend(run_program(stmts, st, r).1.out, run_program(stmts, st, r2).1.out),
{
    lemma_exec_from_prefix(stmts, 0, fresh(st), r, r2);
}

/// The cursor points within the replies: it has not used more replies than there are.
pub open spec fn within(c: Cursor, r: Replies) -> bool {
    &&& c.numbers <= r.numbers@.len()
    &&& c.orders <= r.orders@.len()
    &&& c.texts <= r.texts@.len()
    &&& c.iterations <= r.iterations
}

/// `c1` has used at least the replies that `c` has.
pub open spec fn advanced(c: Cursor, c1: Cursor) -> bool {
    &&& c.numbers <= c1.numbers
    &&& c.orders <= c1.orders
    &&& c.texts <= c1.texts
    &&& c.iterations <= c1.iterations
}

/// A run stopped at cursor `c` on request `q` has used every reply of the kind `q` asks
/// for, so that the next reply of that kind is the one it reads.
pub open spec fn asks_next(q: Request, r: Replies, c: Cursor) -> bool {
    match q {
        Request::Compare(_, _) => c.orders == r.orders@.len(),
        Request::Format(_) | Request::Show(_) => c.texts == r.texts@.len(),
        Request::Iterate => c.iterations == r.iterations,
        _ => c.numbers == r.numbers@.len(),
    }
}

/// What a step from cursor `c` ending at `c1` with end `x` keeps of the protocol.
pub open spec fn keeps_protocol<T>(x: Step<T>, r: Replies, c: Cursor, c1: Cursor) -> bool {
    &&& advanced(c, c1)
    &&& within(c1, r)
    &&& (x matches Step::Pending(q) ==> asks_next(q, r, c1))
}

proof fn lemma_replies_protocol(r: Replies, c: Cursor)
    requires
        within(c, r),
    ensures
        number_reply(r, c) matches Some((_, c2)) ==> advanced(c, c2) && within(c2, r),
        number_reply(r, c) is None ==> c.numbers == r.numbers@.len(),
        order_reply(r, c) matches Some((_, c2)) ==> advanced(c, c2) && within(c2, r),
        order_reply(r, c) is None ==> c.orders == r.orders@.len(),
        text_reply(r, c) matches Some((_, c2)) ==> advanced(c, c2) && within(c2, r),
        text_reply(r, c) is None ==> c.texts == r.texts@.len(),
{
    assert(r.numbers.len() == r.numbers@.len());
    assert(r.orders.len() == r.orders@.len());
    assert(r.texts.len() == r.texts@.len());
}

proof fn lemma_operations_protocol(l: Value, op: Token, rv: Value, r: Replies, c: Cursor)
    requires
        within(c, r),
    ensures
        keeps_protocol(binary(l, op, rv, r, c).0, r, c, binary(l, op, rv, r, c).1),
        keeps_protocol(unary(op, rv, r, c).0, r, c, unary(op, rv, r, c).1),
{
    lemma_replies_protocol(r, c);
    match order_reply(r, c) {
        Some((o, c2)) => lemma_replies_protocol(r, c2),
        None => {},
    }
    match (l, rv) {
        (Value::Number(a), Value::Number(b)) => {
            match order_reply(r, c) {
                Some((o, c2)) => {
                    assert(keeps_protocol(arith(Request::Divide(a, b), r, c2).0, r, c, arith(Request::Divide(a, b), r, c2).1));
                },
                None => {},
            }
        },
        _ => {},
    }
}

proof fn lemma_show_protocol(v: Value, cl: Seq<ClassDef>, ob: Seq<Obj>, r: Replies, c: Cursor)
    requires
        within(c, r),
    ensures
        keeps_protocol(show(v, cl, ob, r, c).0, r, c, show(v, cl, ob, r, c).1),
{
    lemma_replies_protocol(r, c);
    if let Value::Number(n) = v {
        if text_reply(r, c) is None {
            assert(asks_next(Request::Show(n), r, c));
        }
    }
}

proof fn lemma_eval_protocol(e: Expr, st: State, r: Replies)
    requires
        within(st.cursor, r),
    ensures
        keeps_protocol(eval(e, st, r).0, r, st.cursor, eval(e, st, r).1.cursor),
    decreases r.iterations - st.cursor.iterations, 0int, e, 0int,
{
    match e {
        Expr::Grouping { expression, .. } => lemma_eval_protocol(*expression, st, r),
        Expr::Assign { value, .. } => lemma_eval_protocol(*value, st, r),
        Expr::Logical { left, right, .. } => {
            lemma_eval_protocol(*left, st, r);
            let (x, s1) = eval(*left, st, r);
            lemma_eval_protocol(*right, s1, r);
        },
        Expr::Unary { operator, right, .. } => {
            lemma_eval_protocol(*right, st, r);
            let (x, s1) = eval(*right, st, r);
            if let Step::Done(v) = x {
                lemma_operations_protocol(v, operator, v, r, s1.cursor);
            }
        },
        Expr::Binary { left, operator, right, .. } => {
            lemma_eval_protocol(*left, st, r);
            let (x, s1) = eval(*left, st, r);
            lemma_eval_protocol(*right, s1, r);
            let (y, s2) = eval(*right, s1, r);
            if let (Step::Done(lv), Step::Done(rv)) = (x, y) {
                lemma_operations_protocol(lv, operator, rv, r, s2.cursor);
            }
        },
        Expr::Ternary { condition, then_branch, else_branch, .. } => {
            lemma_eval_protocol(*condition, st, r);
            let (x, s1) = eval(*condition, st, r);
            lemma_eval_protocol(*then_branch, s1, r);
            lemma_eval_protocol(*else_branch, s1, r);
        },
        Expr::Get { object, .. } => lemma_eval_protocol(*object, st, r),
        Expr::SetField { object, value, .. } => {
            lemma_eval_protocol(*object, st, r);
            let (x, s1) = eval(*object, st, r);
            lemma_eval_protocol(*value, s1, r);
        },
        Expr::Call { callee: f, arguments, .. } => {
            lemma_eval_protocol(*f, st, r);
            let (x, s1) = eval(*f, st, r);
            lemma_eval_args_protocol(arguments@, 0, s1, r);
            let (y, s2) = eval_args(arguments@, 0, s1, r);
            if let Step::Done(fv) = x {
                if let Step::Done(args) = y {
                    if let Some(fun) = callee(fv, s2.funs) {
                        if args.len() == fun.params.len() && s2.cursor.iterations < r.iterations {
                            lemma_invoke_protocol(
                                fun,
                                args,
                                at_cursor(s2, Cursor { iterations: (s2.cursor.iterations + 1) as usize, ..s2.cursor }),
                                r,
                            );
                        }
                    }
                }
            }
        },
        _ => {},
    }
}

proof fn lemma_eval_args_protocol(args: Seq<Expr>, i: int, st: State, r: Replies)
    requires
        within(st.cursor, r),
    ensures
        keeps_protocol(eval_args(args, i, st, r).0, r, st.cursor, eval_args(args, i, st, r).1.cursor),
    decreases r.iterations - st.cursor.iterations, 0int, args, args.len() - i,
{
    if 0 <= i < args.len() {
        lemma_eval_protocol(args[i], st, r);
        let (x, s1) = eval(args[i], st, r);
        if x is Done {
            lemma_eval_args_protocol(args, i + 1, s1, r);
        }
    }
}

proof fn lemma_invoke_protocol(fun: Fun, args: Seq<Value>, st: State, r: Replies)
    requires
        within(st.cursor, r),
    ensures
        keeps_protocol(invoke(fun, args, st, r).0, r, st.cursor, invoke(fun, args, st, r).1.cursor),
    decreases r.iterations - st.cursor.iterations, 1int, fun.body, fun.body.len() + 1,
{
    let frame = Scope {
        vars: bind_params(fun.params, args, bound_count(fun.params.len(), args.len())),
        enclosing: Some(fun.closure),
    };
    let s1 = State { scopes: st.scopes.push(frame), env: st.scopes.len() as usize, ..st };
    lemma_exec_from_protocol(fun.body, 0, s1, r);
}

proof fn lemma_exec_stmt_protocol(st: Stmt, s: State, r: Replies)
    requires
        within(s.cursor, r),
    ensures
        keeps_protocol(exec_stmt(st, s, r).0, r, s.cursor, exec_stmt(st, s, r).1.cursor),
    decreases r.iterations - s.cursor.iterations, 1int, st, 1int,
{
    match st {
        Stmt::Expression { expression } => lemma_eval_protocol(*expression, s, r),
        Stmt::Print { expression } => {
            lemma_eval_protocol(*expression, s, r);
            let (x, s1) = eval(*expression, s, r);
            if let Step::Done(v) = x {
                lemma_show_protocol(v, s1.classes, s1.objects, r, s1.cursor);
            }
        },
        Stmt::Var { initializer, .. } => lemma_eval_protocol(*initializer, s, r),
        Stmt::Block { statements } => {
            let s1 = State { scopes: s.scopes.push(empty_scope(Some(s.env))), env: s.scopes.len() as usize, ..s };
            lemma_exec_from_protocol(statements@, 0, s1, r);
        },
        Stmt::If { condition, then_branch, else_branch } => {
            lemma_eval_protocol(*condition, s, r);
            let (x, s1) = eval(*condition, s, r);
            lemma_exec_stmt_protocol(*then_branch, s1, r);
            if let Some(b) = else_branch {
                lemma_exec_stmt_protocol(*b, s1, r);
            }
        },
        Stmt::While { .. } => lemma_run_while_protocol(st, s, r),
        Stmt::Function { .. } | Stmt::Class { .. } => {},
        Stmt::Return { value, .. } => {
            if let Some(e) = value {
                lemma_eval_protocol(*e, s, r);
            }
        },
    }
}

proof fn lemma_exec_from_protocol(stmts: Seq<Stmt>, i: int, s: State, r: Replies)
    requires
        within(s.cursor, r),
    ensures
        keeps_protocol(exec_from(stmts, i, s, r).0, r, s.cursor, exec_from(stmts, i, s, r).1.cursor),
    decreases r.iterations - s.cursor.iterations, 1int, stmts, stmts.len() - i,
{
    if 0 <= i < stmts.len() {
        lemma_exec_stmt_protocol(stmts[i], s, r);
        let (x, s1) = exec_stmt(stmts[i], s, r);
        if x == Step::<Option<Value>>::Done(None) {
            lemma_exec_from_protocol(stmts, i + 1, s1, r);
        }
    }
}

proof fn lemma_run_while_protocol(st: Stmt, s: State, r: Replies)
    requires
        within(s.cursor, r),
    ensures
        keeps_protocol(run_while(st, s, r).0, r, s.cursor, run_while(st, s, r).1.cursor),
    decreases r.iterations - s.cursor.iterations, 1int, st, 0int,
{
    if let Stmt::While { condition, body } = st {
        lemma_eval_protocol(*condition, s, r);
        let (x, s1) = eval(*condition, s, r);
        if let Step::Done(v) = x {
            if truthy(v) && s1.cursor.iterations < r.iterations {
                let s2 = at_cursor(s1, Cursor { iterations: (s1.cursor.iterations + 1) as usize, ..s1.cursor });
                lemma_exec_stmt_protocol(*body, s2, r);
                let (y, s3) = exec_stmt(*body, s2, r);
                if y == Step::<Option<Value>>::Done(None) {
                    lemma_run_while_protocol(st, s3, r);
                }
            }
        }
    }
}

/// Law: a run that stops to wait on a request has used every reply of the kind the
/// request asks for, and no more replies than were given; so the reply the caller
/// appends next is the one the run reads when it is made again.
pub proof fn law_pending_asks_next(stmts: Seq<Stmt>, st: State, r: Replies)
    ensures
        within(run_program(stmts, st, r).1.cursor, r),
        run_program(stmts, st, r).0 matches Step::Pending(q) ==> asks_next(q, r, run_program(stmts, st, r).1.cursor),
{
    lemma_exec_from_protocol(stmts, 0, fresh(st), r);
}

/// The cursor of a run that has used no replies.
pub open spec fn start_cursor() -> Cursor {
    Cursor { numbers: 0, orders: 0, texts: 0, iterations: 0 }
}

/// The state a run starts from: the scopes and functions `st` holds, no lines printed
/// and no replies used.
pub open spec fn fresh(st: State) -> State {
    State { out: Seq::empty(), cursor: start_cursor(), ..st }
}

/// Runs `stmts` from the state `st` with the replies `r`, from the start.
pub open spec fn run_program(stmts: Seq<Stmt>, st: State, r: Replies) -> (Completion, State) {
    exec_from(stmts, 0, fresh(st), r)
}

/// How an exec outcome reads in the contracts.
pub open spec fn step_of<T: View>(o: Outcome<T>) -> Step<T::V> {
    match o {
        Outcome::Done(v) => Step::Done(v@),
        Outcome::Failed(e) => Step::Failed(e.token, e.message@),
        Outcome::Pending(q) => Step::Pending(q),
    }
}

/// How an exec statement outcome reads in the contracts.
pub open spec fn completion_of(o: Outcome<Option<Literal>>) -> Completion {
    match o {
        Outcome::Done(Some(v)) => Step::Done(Some(v@)),
        Outcome::Done(None) => Step::Done(None),
        Outcome::Failed(e) => Step::Failed(e.token, e.message@),
        Outcome::Pending(q) => Step::Pending(q),
    }
}

/// The values of evaluated arguments, as the contracts see them.
pub open spec fn values_of(o: Outcome<Vec<Literal>>) -> Step<Seq<Value>> {
    match o {
        Outcome::Done(v) => Step::Done(v@.map_values(|l: Literal| l@)),
        Outcome::Failed(e) => Step::Failed(e.token, e.message@),
        Outcome::Pending(q) => Step::Pending(q),
    }
}

/// How a run of a program ends: a `return` at its top level ends it as its end does.
pub open spec fn finished(x: Completion) -> Step<()> {
    match x {
        Step::Done(_) => Step::Done(()),
        Step::Failed(t, m) => Step::Failed(t, m),
        Step::Pending(q) => Step::Pending(q),
    }
}

/// The state of a new evaluator: one empty global scope, no functions, nothing printed
/// and no replies used.
pub open spec fn initial_state() -> State {
    State {
        scopes: seq![empty_scope(None)],
        funs: Seq::empty(),
        classes: Seq::empty(),
        objects: Seq::empty(),
        env: 0,
        out: Seq::empty(),
        cursor: start_cursor(),
    }
}

fn next_number(replies: &Replies, cursor: &mut Cursor) -> (r: Option<u64>)
    ensures
        match number_reply(*replies, *old(cursor)) {
            Some((n, c2)) => r == Some(n) && *final(cursor) == c2,
            None => r is None && *final(cursor) == *old(cursor),
        },
{
    if cursor.numbers < replies.numbers.len() {
        let n = replies.numbers[cursor.numbers];
        cursor.numbers = cursor.numbers + 1;
        Some(n)
    } else {
        None
    }
}

fn next_order(replies: &Replies, cursor: &mut Cursor) -> (r: Option<NumberOrder>)
    ensures
        match order_reply(*replies, *old(cursor)) {
            Some((o, c2)) => r == Some(o) && *final(cursor) == c2,
            None => r is None && *final(cursor) == *old(cursor),
        },
{
    if cursor.orders < replies.orders.len() {
        let o = replies.orders[cursor.orders];
        cursor.orders = cursor.orders + 1;
        Some(o)
    } else {
        None
    }
}

fn next_text(replies: &Replies, cursor: &mut Cursor) -> (r: Option<String>)
    ensures
        match text_reply(*replies, *old(cursor)) {
            Some((t, c2)) => r matches Some(s) && s@ == t && *final(cursor) == c2,
            None => r is None && *final(cursor) == *old(cursor),
        },
{
    if cursor.texts < replies.texts.len() {
        let t = replies.texts[cursor.texts].clone();
        cursor.texts = cursor.texts + 1;
        Some(t)
    } else {
        None
    }
}

fn arith_reply(req: Request, replies: &Replies, cursor: &mut Cursor) -> (r: Outcome<Literal>)
    ensures
        (step_of(r), *final(cursor)) == arith(req, *replies, *old(cursor)),
{
    match next_number(replies, cursor) {
        Some(n) => Outcome::Done(Literal::Number(n)),
        None => Outcome::Pending(req),
    }
}

fn accepts(ty: TokenType, o: NumberOrder) -> (r: bool)
    ensures
        r == order_accepts(ty, o),
{
    match ty {
        TokenType::Greater => o == NumberOrder::Greater,
        TokenType::GreaterEqual => o != NumberOrder::Less,
        TokenType::Less => o == NumberOrder::Less,
        _ => o != NumberOrder::Greater,
    }
}

/// Lexicographic order of two strings, character by character.
pub fn compare_strings(a: &str, b: &str) -> (o: NumberOrder)
    ensures
        o == str_order(a@, b@),
{
    let n = a.unicode_len();
    let m = b.unicode_len();
    let mut i: usize = 0;
    assert(a@.skip(0) =~= a@);
    assert(b@.skip(0) =~= b@);
    while i < n && i < m
        invariant
            n == a@.len(),
            m == b@.len(),
            i <= n,
            i <= m,
            str_order(a@, b@) == str_order(a@.skip(i as int), b@.skip(i as int)),
        decreases n - i,
    {
        let x = a.get_char(i);
        let y = b.get_char(i);
        if (x as u32) < (y as u32) {
            return NumberOrder::Less;
        }
        if (x as u32) > (y as u32) {
            return NumberOrder::Greater;
        }
        assert(a@.skip(i as int).drop_first() =~= a@.skip(i + 1));
        assert(b@.skip(i as int).drop_first() =~= b@.skip(i + 1));
        i = i + 1;
    }
    if i == n && i == m {
        NumberOrder::Equal
    } else if i == n {
        NumberOrder::Less
    } else {
        NumberOrder::Greater
    }
}

/// What a run of statements gives back: the lines it printed, and how it ended.
pub struct Interpretation {
    pub output: Vec<String>,
    pub outcome: Outcome<()>,
}

impl Replies {
    /// No replies yet.
    pub fn new() -> (r: Replies)
        ensures
            r.numbers@.len() == 0,
            r.orders@.len() == 0,
            r.texts@.len() == 0,
            r.iterations == 0,
    {
        Replies { numbers: Vec::new(), orders: Vec::new(), texts: Vec::new(), iterations: 0 }
    }
}

/// Runs expressions and statements: the scopes of a run, the scope it is in, and the
/// functions it has declared, whose bodies stay in the program they were read from.
pub struct Evaluator<'a> {
    environment: Environment,
    current: usize,
    functions: Vec<FunctionCallable<'a>>,
    classes: Vec<ClassEntry<'a>>,
    objects: Vec<ObjectEntry>,
}

/// A class of a run: its name, the statements of its body as written in the program,
/// the scope its methods were declared in, and its superclass.
struct ClassEntry<'a> {
    name: String,
    methods: &'a Vec<Stmt>,
    closure: usize,
    superclass: Option<usize>,
}

spec fn class_view<'a>(c: ClassEntry<'a>) -> ClassDef {
    ClassDef { name: c.name@, methods: c.methods@, closure: c.closure, superclass: c.superclass }
}

/// An instance of a run: its class, and its fields by name.
struct ObjectEntry {
    class: usize,
    fields: Vec<(String, Literal)>,
}

spec fn object_view(o: ObjectEntry) -> Obj {
    Obj { class: o.class, fields: scope_view(bindings_map(o.fields@)) }
}

/// How a call ends, carried over from how its body ended.
fn returned(o: Outcome<Option<Literal>>) -> (r: Outcome<Literal>)
    ensures
        step_of(r) == match completion_of(o) {
            Step::Done(Some(v)) => Step::Done(v),
            Step::Done(None) => Step::Done(Value::Nil),
            Step::Failed(t, m) => Step::Failed(t, m),
            Step::Pending(q) => Step::Pending(q),
        },
{
    match o {
        Outcome::Done(Some(v)) => Outcome::Done(v),
        Outcome::Done(None) => Outcome::Done(Literal::Nil),
        Outcome::Failed(e) => Outcome::Failed(e),
        Outcome::Pending(q) => Outcome::Pending(q),
    }
}

fn abandon_completion(o: Outcome<Literal>) -> (r: Outcome<Option<Literal>>)
    ensures
        completion_of(r) == abandon::<Value, Option<Value>>(step_of(o)),
{
    match o {
        Outcome::Failed(e) => Outcome::Failed(e),
        Outcome::Pending(q) => Outcome::Pending(q),
        Outcome::Done(_) => Outcome::Pending(Request::Iterate),
    }
}

fn abandon_shown(o: Outcome<String>) -> (r: Outcome<Option<Literal>>)
    ensures
        completion_of(r) == abandon::<Seq<char>, Option<Value>>(step_of(o)),
{
    match o {
        Outcome::Failed(e) => Outcome::Failed(e),
        Outcome::Pending(q) => Outcome::Pending(q),
        Outcome::Done(_) => Outcome::Pending(Request::Iterate),
    }
}

/// The lowest step count of a cursor that has used `c`'s replies plus one more step.
fn one_step_more(c: &mut Cursor, replies: &Replies)
    requires
        old(c).iterations < replies.iterations,
    ensures
        *final(c) == (Cursor { iterations: (old(c).iterations + 1) as usize, ..*old(c) }),
{
    c.iterations = c.iterations + 1;
}

impl<'a> Evaluator<'a> {
    /// The state of a run of this evaluator, with the replies used up to `c` and the
    /// lines `out` printed.
    pub closed spec fn state(&self, c: Cursor, out: Seq<Seq<char>>) -> State {
        State {
            scopes: self.environment.scopes(),
            funs: self.functions@.map_values(|f: FunctionCallable<'a>| f@),
            classes: self.classes@.map_values(|k: ClassEntry<'a>| class_view(k)),
            objects: self.objects@.map_values(|o: ObjectEntry| object_view(o)),
            env: self.current,
            out,
            cursor: c,
        }
    }

    /// The number of scopes the run has made.
    pub closed spec fn scope_count(&self) -> nat {
        self.environment.scopes().len()
    }

    /// A state of the evaluator holds the replies used and the lines printed it was given.
    pub proof fn lemma_state_parts(&self, c: Cursor, out: Seq<Seq<char>>)
        ensures
            self.state(c, out).cursor == c,
            self.state(c, out).out == out,
            self.state(c, out).scopes.len() == self.scope_count(),
    {
    }

    /// The classes and instances of a state of the evaluator do not depend on the replies
    /// used or the lines printed.
    pub proof fn lemma_state_tables(&self, c1: Cursor, o1: Seq<Seq<char>>, c2: Cursor, o2: Seq<Seq<char>>)
        ensures
            self.state(c1, o1).classes == self.state(c2, o2).classes,
            self.state(c1, o1).objects == self.state(c2, o2).objects,
    {
    }

    /// The environment is well formed, the current scope is one of its scopes, and so is
    /// the scope each function was declared in.
    pub closed spec fn wf(&self) -> bool {
        &&& self.environment.wf()
        &&& self.current < self.environment.scopes().len()
        &&& forall|i: int|
            0 <= i < self.functions@.len() ==> (#[trigger] self.functions@[i])@.closure
                < self.environment.scopes().len()
        &&& forall|i: int|
            0 <= i < self.classes@.len() ==> (#[trigger] self.classes@[i]).closure
                < self.environment.scopes().len()
        &&& forall|i: int| 0 <= i < self.objects@.len() ==> distinct_names((#[trigger] self.objects@[i]).fields@)
    }

    /// A state of a well-formed evaluator has a current scope, its scopes nest, and its
    /// functions were declared in its scopes.
    pub proof fn lemma_wf(&self, c: Cursor, out: Seq<Seq<char>>)
        requires
            self.wf(),
        ensures
            self.state(c, out).env < self.state(c, out).scopes.len(),
            nested_before(self.state(c, out).scopes),
            forall|i: int| 0 <= i < self.state(c, out).funs.len() ==> (#[trigger] self.state(c, out).funs[i]).closure
                < self.state(c, out).scopes.len(),
    {
        self.environment.lemma_wf();
        assert forall|i: int| 0 <= i < self.state(c, out).funs.len() implies (#[trigger] self.state(
            c,
            out,
        ).funs[i]).closure < self.state(c, out).scopes.len() by {
            assert(self.state(c, out).funs[i] == self.functions@[i]@);
        }
    }

    /// An evaluator with an empty global scope and no functions.
    pub fn new() -> (e: Evaluator<'a>)
        ensures
            e.wf(),
            e.state(start_cursor(), Seq::empty()) == initial_state(),
    {
        let e = Evaluator {
            environment: Environment::new(),
            current: 0,
            functions: Vec::new(),
            classes: Vec::new(),
            objects: Vec::new(),
        };
        assert(e.state(start_cursor(), Seq::empty()).funs =~= Seq::<Fun>::empty());
        assert(e.state(start_cursor(), Seq::empty()).classes =~= Seq::<ClassDef>::empty());
        assert(e.state(start_cursor(), Seq::empty()).objects =~= Seq::<Obj>::empty());
        e
    }

    fn runtime_error(&self, token: &Token, message: &str) -> (e: RuntimeError)
        ensures
            e.token == *token,
            e.message@ == message@,
    {
        RuntimeError { token: token.duplicate(), message: String::from_str(message) }
    }


    /// Whether a value counts as true.
    pub fn is_truthy(&self, literal: &Literal) -> (r: bool)
        ensures
            r == truthy(literal@),
    {
        match literal {
            Literal::Bool(b) => *b,
            Literal::Nil => false,
            _ => true,
        }
    }

    /// Whether two values are equal; `None` while the comparison of two numbers waits
    /// for its reply.
    pub fn is_equal(&self, a: &Literal, b: &Literal, replies: &Replies, cursor: &mut Cursor) -> (r:
        Option<bool>)
        ensures
            match (a@, b@) {
                (Value::Number(x), Value::Number(y)) => match order_reply(*replies, *old(cursor)) {
                    Some((o, c2)) => r == Some(o == NumberOrder::Equal) && *final(cursor) == c2,
                    None => r is None && *final(cursor) == *old(cursor),
                },
                _ => r == Some(same_value(a@, b@)) && *final(cursor) == *old(cursor),
            },
    {
        match (a, b) {
            (Literal::Number(_), Literal::Number(_)) => match next_order(replies, cursor) {
                Some(o) => Some(o == NumberOrder::Equal),
                None => None,
            },
            (Literal::String(l), Literal::String(r)) => Some(*l == *r),
            (Literal::Bool(l), Literal::Bool(r)) => Some(*l == *r),
            (Literal::Nil, Literal::Nil) => Some(true),
            _ => Some(false),
        }
    }

    fn addition_binary(
        &self,
        left: &Literal,
        operator: &Token,
        right: &Literal,
        replies: &Replies,
        cursor: &mut Cursor,
    ) -> (r: Outcome<Literal>)
        ensures
            (step_of(r), *final(cursor)) == addition(left@, *operator, right@, *replies, *old(cursor)),
    {
        match (left, right) {
            (Literal::Number(l), Literal::Number(r)) => arith_reply(Request::Add(*l, *r), replies, cursor),
            (Literal::String(l), Literal::String(r)) => {
                let mut s = l.clone();
                s.append(r.as_str());
                Outcome::Done(Literal::String(s))
            },
            (Literal::String(l), Literal::Number(r)) => match next_text(replies, cursor) {
                Some(t) => {
                    let mut s = l.clone();
                    s.append(t.as_str());
                    Outcome::Done(Literal::String(s))
                },
                None => Outcome::Pending(Request::Format(*r)),
            },
            (Literal::Number(l), Literal::String(r)) => match next_text(replies, cursor) {
                Some(t) => {
                    let mut s = t;
                    s.append(r.as_str());
                    Outcome::Done(Literal::String(s))
                },
                None => Outcome::Pending(Request::Format(*l)),
            },
            _ => Outcome::Failed(
                self.runtime_error(operator, "Operands must be two numbers or atleast one string."),
            ),
        }
    }

    fn numeric_binary(
        &self,
        left: &Literal,
        operator: &Token,
        right: &Literal,
        replies: &Replies,
        cursor: &mut Cursor,
    ) -> (r: Outcome<Literal>)
        ensures
            (step_of(r), *final(cursor)) == numeric(left@, *operator, right@, *replies, *old(cursor)),
    {
        match (left, right) {
            (Literal::Number(l), Literal::Number(r)) => {
                let req = if operator.token_type() == TokenType::Minus {
                    Request::Subtract(*l, *r)
                } else {
                    Request::Multiply(*l, *r)
                };
                arith_reply(req, replies, cursor)
            },
            _ => Outcome::Failed(self.runtime_error(operator, "Operands must be numbers.")),
        }
    }

    fn division_binary(
        &self,
        left: &Literal,
        operator: &Token,
        right: &Literal,
        replies: &Replies,
        cursor: &mut Cursor,
    ) -> (r: Outcome<Literal>)
        ensures
            (step_of(r), *final(cursor)) == division(left@, *operator, right@, *replies, *old(cursor)),
    {
        match (left, right) {
            (Literal::Number(l), Literal::Number(r)) => match next_order(replies, cursor) {
                Some(o) => if o == NumberOrder::Equal {
                    Outcome::Failed(self.runtime_error(operator, "Division by zero."))
                } else {
                    arith_reply(Request::Divide(*l, *r), replies, cursor)
                },
                None => Outcome::Pending(Request::Compare(*r, 0)),
            },
            _ => Outcome::Failed(self.runtime_error(operator, "Operands must be numbers.")),
        }
    }

    fn comparison_binary(
        &self,
        left: &Literal,
        operator: &Token,
        right: &Literal,
        replies: &Replies,
        cursor: &mut Cursor,
    ) -> (r: Outcome<Literal>)
        ensures
            (step_of(r), *final(cursor)) == comparison(left@, *operator, right@, *replies, *old(cursor)),
    {
        match (left, right) {
            (Literal::Number(l), Literal::Number(r)) => match next_order(replies, cursor) {
                Some(o) => if o == NumberOrder::Unordered {
                    Outcome::Failed(
                        self.runtime_error(operator, "Operands must be two numbers or two strings."),
                    )
                } else {
                    Outcome::Done(Literal::Bool(accepts(operator.token_type(), o)))
                },
                None => Outcome::Pending(Request::Compare(*l, *r)),
            },
            (Literal::String(l), Literal::String(r)) => Outcome::Done(
                Literal::Bool(accepts(operator.token_type(), compare_strings(l.as_str(), r.as_str()))),
            ),
            _ => Outcome::Failed(
                self.runtime_error(operator, "Operands must be two numbers or two strings."),
            ),
        }
    }

    /// The value of a binary operation.
    pub fn evaluate_binary(
        &self,
        left: &Literal,
        operator: &Token,
        right: &Literal,
        replies: &Replies,
        cursor: &mut Cursor,
    ) -> (r: Outcome<Literal>)
        ensures
            (step_of(r), *final(cursor)) == binary(left@, *operator, right@, *replies, *old(cursor)),
    {
        match operator.token_type() {
            TokenType::Plus => self.addition_binary(left, operator, right, replies, cursor),
            TokenType::Minus | TokenType::Star => self.numeric_binary(
                left,
                operator,
                right,
                replies,
                cursor,
            ),
            TokenType::Slash => self.division_binary(left, operator, right, replies, cursor),
            TokenType::Greater
            | TokenType::GreaterEqual
            | TokenType::Less
            | TokenType::LessEqual => self.comparison_binary(left, operator, right, replies, cursor),
            TokenType::EqualEqual | TokenType::BangEqual => {
                let negate = operator.token_type() == TokenType::BangEqual;
                match self.is_equal(left, right, replies, cursor) {
                    Some(eq) => Outcome::Done(Literal::Bool(eq != negate)),
                    None => match (left, right) {
                        (Literal::Number(l), Literal::Number(r)) => Outcome::Pending(
                            Request::Compare(*l, *r),
                        ),
                        _ => Outcome::Pending(Request::Iterate),
                    },
                }
            },
            _ => Outcome::Failed(self.runtime_error(operator, "Unknown binary operator.")),
        }
    }

    /// The value of a unary operation.
    pub fn evaluate_unary(&self, operator: &Token, right: &Literal, replies: &Replies, cursor: &mut Cursor) -> (r:
        Outcome<Literal>)
        ensures
            (step_of(r), *final(cursor)) == unary(*operator, right@, *replies, *old(cursor)),
    {
        match operator.token_type() {
            TokenType::Minus => match right {
                Literal::Number(n) => Outcome::Done(Literal::Number(*n ^ 0x8000_0000_0000_0000u64)),
                _ => Outcome::Failed(self.runtime_error(operator, "Operand must be a number.")),
            },
            TokenType::Bang => Outcome::Done(Literal::Bool(!self.is_truthy(right))),
            _ => Outcome::Failed(self.runtime_error(operator, "Unknown unary operator.")),
        }
    }


    /// The text `print` writes for a value.
    pub fn show(&self, v: &Literal, replies: &Replies, cursor: &mut Cursor) -> (r: Outcome<String>)
        ensures
            (step_of(r), *final(cursor)) == show(
                v@,
                self.state(*old(cursor), Seq::empty()).classes,
                self.state(*old(cursor), Seq::empty()).objects,
                *replies,
                *old(cursor),
            ),
    {
        match v {
            Literal::Bool(b) => if *b {
                Outcome::Done(String::from_str("true"))
            } else {
                Outcome::Done(String::from_str("false"))
            },
            Literal::Nil => Outcome::Done(String::from_str("nil")),
            Literal::Callable(_) => Outcome::Done(String::from_str("<fn>")),
            Literal::Class(k) => {
                let mut t = String::from_str("<class ");
                if *k < self.classes.len() {
                    t.append(self.classes[*k].name.as_str());
                }
                t.append(">");
                Outcome::Done(t)
            },
            Literal::Instance(k) => {
                let mut t = String::new();
                if *k < self.objects.len() && self.objects[*k].class < self.classes.len() {
                    t = self.classes[self.objects[*k].class].name.clone();
                }
                t.append(" instance");
                Outcome::Done(t)
            },
            Literal::String(t) => Outcome::Done(t.clone()),
            Literal::Number(n) => match next_text(replies, cursor) {
                Some(t) => Outcome::Done(t),
                None => Outcome::Pending(Request::Show(*n)),
            },
        }
    }

    fn look_up(&self, name: &Token, Ghost(c): Ghost<Cursor>, Ghost(out): Ghost<Seq<Seq<char>>>) -> (r: Outcome<Literal>)
        requires
            self.wf(),
        ensures
            step_of(r) == lookup(self.state(c, out), *name),
    {
        match self.environment.get(self.current, name) {
            Ok(v) => Outcome::Done(v),
            Err(RuntimeException::Error { token, message }) => Outcome::Failed(RuntimeError { token, message }),
            Err(RuntimeException::Return { .. }) => {
                assert(false);
                Outcome::Pending(Request::Iterate)
            },
        }
    }

    fn assign_variable(&mut self, name: &Token, value: Literal, Ghost(c): Ghost<Cursor>, Ghost(out): Ghost<Seq<Seq<char>>>) -> (r: Outcome<Literal>)
        requires
            old(self).wf(),
        ensures
            final(self).wf(),
            old(self).scope_count() == final(self).scope_count(),
            ({
                let st = old(self).state(c, out);
                match reassign(st.scopes, st.env as int, name.lexeme@, value@) {
                    Some(sc) => step_of(r) == Step::Done(value@) && final(self).state(c, out) == (State { scopes: sc, ..st }),
                    None => step_of(r) == Step::<Value>::Failed(*name, undefined_variable_message(name.lexeme@))
                        && final(self).state(c, out) == st,
                }
            }),
    {
        proof {
            if reassign(self.environment.scopes(), self.current as int, name.lexeme@, value@) is Some {
                law_get_after_assign(self.environment.scopes(), self.current as int, name.lexeme@, value@);
            }
        }
        match self.environment.assign(self.current, name, value.duplicate()) {
            Ok(()) => Outcome::Done(value),
            Err(RuntimeException::Error { token, message }) => Outcome::Failed(RuntimeError { token, message }),
            Err(RuntimeException::Return { .. }) => {
                assert(false);
                Outcome::Pending(Request::Iterate)
            },
        }
    }

    /// The method named `name` of the class `c`, looked for in the class and then in its
    /// superclasses.
    fn method_of(&self, c: usize, name: &String, Ghost(cu): Ghost<Cursor>, Ghost(out): Ghost<Seq<Seq<char>>>) -> (r: Option<FunctionCallable<'a>>)
        requires
            self.wf(),
        ensures
            match find_method(self.state(cu, out).classes, c as int, name@) {
                Some(f) => r matches Some(g) && g@ == f && f.closure < self.scope_count(),
                None => r is None,
            },
    {
        let ghost cl = self.state(cu, out).classes;
        let mut k = c;
        loop
            invariant
                self.wf(),
                cl == self.state(cu, out).classes,
                find_method(cl, c as int, name@) == find_method(cl, k as int, name@),
            decreases k,
        {
            if k >= self.classes.len() {
                return None;
            }
            let entry = &self.classes[k];
            let ms = entry.methods;
            assert(cl[k as int] == class_view(*entry));
            assert(self.classes@[k as int] == *entry);
            let mut j = ms.len();
            assert(ms@.take(j as int) =~= ms@);
            while j > 0
                invariant
                    self.wf(),
                    cl == self.state(cu, out).classes,
                    k < cl.len(),
                    find_method(cl, c as int, name@) == find_method(cl, k as int, name@),
                    cl[k as int].closure == entry.closure,
                    entry.closure < self.scope_count(),
                    j <= ms@.len(),
                    ms@ == cl[k as int].methods,
                    last_method(ms@, name@) == last_method(ms@.take(j as int), name@),
                decreases j,
            {
                j = j - 1;
                assert(ms@.take(j + 1).drop_last() =~= ms@.take(j as int));
                assert(ms@.take(j + 1).last() == ms@[j as int]);
                if let Stmt::Function { name: n, params, body } = &ms[j] {
                    if n.lexeme == *name {
                        return Some(FunctionCallable::new(params, body, entry.closure));
                    }
                }
            }
            match entry.superclass {
                Some(p) => {
                    if p < k {
                        k = p;
                    } else {
                        return None;
                    }
                },
                None => {
                    return None;
                },
            }
        }
    }

    /// Binds the method `m` to the instance `k`: a new scope nested in the method's binds
    /// `this` to the instance, and a new function runs the method's body there.
    fn bind(&mut self, m: &FunctionCallable<'a>, k: usize, Ghost(cu): Ghost<Cursor>, Ghost(out): Ghost<Seq<Seq<char>>>) -> (r: Literal)
        requires
            old(self).wf(),
            m@.closure < old(self).scope_count(),
        ensures
            final(self).wf(),
            old(self).scope_count() <= final(self).scope_count(),
            (r@, final(self).state(cu, out)) == bind(old(self).state(cu, out), m@, k),
    {
        let ghost st = self.state(cu, out);
        let frame = self.environment.new_enclosed(m.closure());
        let this = Token::new(TokenType::This, String::from_str("this"), None, 0);
        self.environment.define(frame, &this, Literal::Instance(k));
        let index = self.functions.len();
        let f = FunctionCallable::new(m.params(), m.body(), frame);
        self.functions.push(f);
        proof {
            assert(self.environment.scopes() =~= st.scopes.push(Scope {
                vars: Map::empty().insert("this"@, Value::Instance(k)),
                enclosing: Some(m@.closure),
            }));
            let fs = self.functions@.map_values(|g: FunctionCallable<'a>| g@);
            assert(fs =~= old(self).functions@.map_values(|g: FunctionCallable<'a>| g@).push(f@));
            assert forall|i: int| 0 <= i < self.functions@.len() implies (#[trigger] self.functions@[i])@.closure
                < self.environment.scopes().len() by {
                if i < old(self).functions@.len() {
                    assert(self.functions@[i] == old(self).functions@[i]);
                }
            }
        }
        Literal::Callable(index)
    }

    /// The index among the fields of the instance `k` of the field `name`, if it has one.
    fn find_field(&self, k: usize, name: &String) -> (r: Option<usize>)
        requires
            self.wf(),
            k < self.objects@.len(),
        ensures
            match r {
                Some(i) => i < self.objects@[k as int].fields@.len() && self.objects@[k as int].fields@[i as int].0@ == name@,
                None => !bindings_map(self.objects@[k as int].fields@).contains_key(name@),
            },
    {
        let fields = &self.objects[k].fields;
        let mut i: usize = 0;
        while i < fields.len()
            invariant
                fields@ == self.objects@[k as int].fields@,
                i <= fields@.len(),
                forall|j: int| 0 <= j < i ==> fields@[j].0@ != name@,
            decreases fields@.len() - i,
        {
            if fields[i].0 == *name {
                return Some(i);
            }
            i = i + 1;
        }
        None
    }

    /// The property `name` of the instance `k`: its field, or else its class's method
    /// bound to it.
    fn get_property(&mut self, k: usize, name: &Token, Ghost(cu): Ghost<Cursor>, Ghost(out): Ghost<Seq<Seq<char>>>) -> (r: Outcome<Literal>)
        requires
            old(self).wf(),
            k < old(self).state(cu, out).objects.len(),
        ensures
            final(self).wf(),
            old(self).scope_count() <= final(self).scope_count(),
            (step_of(r), final(self).state(cu, out)) == get_property(old(self).state(cu, out), k, *name),
    {
        let ghost st = self.state(cu, out);
        assert(st.objects[k as int] == object_view(self.objects@[k as int]));
        match self.find_field(k, &name.lexeme) {
            Some(i) => {
                proof {
                    lemma_bindings_at(self.objects@[k as int].fields@, i as int);
                }
                Outcome::Done(self.objects[k].fields[i].1.duplicate())
            },
            None => match self.method_of(self.objects[k].class, &name.lexeme, Ghost(cu), Ghost(out)) {
                Some(m) => Outcome::Done(self.bind(&m, k, Ghost(cu), Ghost(out))),
                None => {
                    let mut message = String::from_str("Undefined property '");
                    message.append(name.lexeme.as_str());
                    message.append("'.");
                    Outcome::Failed(RuntimeError { token: name.duplicate(), message })
                },
            },
        }
    }

    /// Gives the instance `k` the field `name` with the value `value`.
    fn set_field(&mut self, k: usize, name: &Token, value: Literal, Ghost(cu): Ghost<Cursor>, Ghost(out): Ghost<Seq<Seq<char>>>)
        requires
            old(self).wf(),
            k < old(self).state(cu, out).objects.len(),
        ensures
            final(self).wf(),
            old(self).scope_count() == final(self).scope_count(),
            ({
                let st = old(self).state(cu, out);
                final(self).state(cu, out) == (State {
                    objects: st.objects.update(
                        k as int,
                        Obj { class: st.objects[k as int].class, fields: st.objects[k as int].fields.insert(name.lexeme@, value@) },
                    ),
                    ..st
                })
            }),
    {
        let ghost st = self.state(cu, out);
        assert(st.objects[k as int] == object_view(self.objects@[k as int]));
        let found = self.find_field(k, &name.lexeme);
        let entry = (name.lexeme.clone(), value);
        let mut fields: Vec<(String, Literal)> = Vec::new();
        std::mem::swap(&mut fields, &mut self.objects[k].fields);
        let ghost old_fields = fields@;
        match found {
            Some(i) => {
                proof {
                    lemma_bindings_update(fields@, i as int, entry);
                }
                fields.set(i, entry);
            },
            None => {
                proof {
                    lemma_bindings_push(fields@, entry);
                }
                fields.push(entry);
            },
        }
        proof {
            lemma_scope_view_insert(bindings_map(old_fields), name.lexeme@, value);
        }
        self.objects[k].fields = fields;
        proof {
            assert(self.state(cu, out).objects =~= st.objects.update(
                k as int,
                Obj { class: st.objects[k as int].class, fields: st.objects[k as int].fields.insert(name.lexeme@, value@) },
            ));
            assert forall|i: int| 0 <= i < self.objects@.len() implies distinct_names((#[trigger] self.objects@[i]).fields@) by {
                if i != k {
                    assert(self.objects@[i] == old(self).objects@[i]);
                }
            }
        }
    }

    /// Makes a new instance of the class `c`.
    fn instantiate(&mut self, c: usize, Ghost(cu): Ghost<Cursor>, Ghost(out): Ghost<Seq<Seq<char>>>) -> (r: Literal)
        requires
            old(self).wf(),
        ensures
            final(self).wf(),
            old(self).scope_count() == final(self).scope_count(),
            ({
                let st = old(self).state(cu, out);
                &&& r@ == Value::Instance(st.objects.len() as usize)
                &&& final(self).state(cu, out) == (State {
                    objects: st.objects.push(Obj { class: c, fields: Map::empty() }),
                    ..st
                })
            }),
    {
        let index = self.objects.len();
        let o = ObjectEntry { class: c, fields: Vec::new() };
        self.objects.push(o);
        proof {
            let st = old(self).state(cu, out);
            assert(bindings_map(o.fields@) =~= Map::empty());
            assert(scope_view(Map::<Seq<char>, Literal>::empty()) =~= Map::empty());
            assert(self.state(cu, out).objects =~= st.objects.push(Obj { class: c, fields: Map::empty() }));
            assert forall|i: int| 0 <= i < self.objects@.len() implies distinct_names((#[trigger] self.objects@[i]).fields@) by {
                if i < old(self).objects@.len() {
                    assert(self.objects@[i] == old(self).objects@[i]);
                }
            }
        }
        Literal::Instance(index)
    }

    /// Declares the class `name` with the methods among `methods`, declared in the scope
    /// `closure`, and the superclass `superclass`.
    fn declare_class(&mut self, name: &Token, methods: &'a Vec<Stmt>, closure: usize, superclass: Option<usize>, Ghost(cu): Ghost<Cursor>, Ghost(out): Ghost<Seq<Seq<char>>>)
        requires
            old(self).wf(),
            closure < old(self).scope_count(),
        ensures
            final(self).wf(),
            old(self).scope_count() == final(self).scope_count(),
            (Step::<Option<Value>>::Done(None), final(self).state(cu, out)) == declare_class(old(self).state(cu, out), *name, methods@, closure, superclass),
    {
        let index = self.classes.len();
        let entry = ClassEntry { name: name.lexeme.clone(), methods, closure, superclass };
        self.classes.push(entry);
        self.environment.define(self.current, name, Literal::Class(index));
        proof {
            let st = old(self).state(cu, out);
            assert(self.state(cu, out).classes =~= st.classes.push(class_view(entry)));
            assert forall|i: int| 0 <= i < self.classes@.len() implies (#[trigger] self.classes@[i]).closure
                < self.environment.scopes().len() by {
                if i < old(self).classes@.len() {
                    assert(self.classes@[i] == old(self).classes@[i]);
                }
            }
        }
    }

    /// Evaluates `super.method`: the method of the superclass bound to `this`.
    fn evaluate_super(&mut self, keyword: &Token, method: &Token, Ghost(cu): Ghost<Cursor>, Ghost(out): Ghost<Seq<Seq<char>>>) -> (r: Outcome<Literal>)
        requires
            old(self).wf(),
        ensures
            final(self).wf(),
            old(self).scope_count() <= final(self).scope_count(),
            ({
                let st = old(self).state(cu, out);
                (step_of(r), final(self).state(cu, out)) == match resolve(st.scopes, st.env as int, "super"@) {
                    Some(Value::Class(sc)) => match resolve(st.scopes, st.env as int, "this"@) {
                        Some(Value::Instance(k)) => match find_method(st.classes, sc as int, method.lexeme@) {
                            Some(m) => {
                                let (v, s1) = bind(st, m, k);
                                (Step::Done(v), s1)
                            },
                            None => (Step::Failed(*method, undefined_property_message(method.lexeme@)), st),
                        },
                        _ => (Step::Failed(*keyword, undefined_variable_message("this"@)), st),
                    },
                    Some(_) => (Step::Failed(*keyword, superclass_message()), st),
                    None => (Step::Failed(*keyword, undefined_variable_message("super"@)), st),
                }
            }),
    {
        let super_name = Token::new(TokenType::Super, String::from_str("super"), None, 0);
        let this_name = Token::new(TokenType::This, String::from_str("this"), None, 0);
        match self.environment.get(self.current, &super_name) {
            Ok(Literal::Class(sc)) => match self.environment.get(self.current, &this_name) {
                Ok(Literal::Instance(k)) => match self.method_of(sc, &method.lexeme, Ghost(cu), Ghost(out)) {
                    Some(m) => Outcome::Done(self.bind(&m, k, Ghost(cu), Ghost(out))),
                    None => {
                        let mut message = String::from_str("Undefined property '");
                        message.append(method.lexeme.as_str());
                        message.append("'.");
                        Outcome::Failed(RuntimeError { token: method.duplicate(), message })
                    },
                },
                _ => {
                    let mut message = String::from_str("Undefined variable '");
                    message.append("this");
                    message.append("'.");
                    Outcome::Failed(RuntimeError { token: keyword.duplicate(), message })
                },
            },
            Ok(_) => Outcome::Failed(self.runtime_error(keyword, "Superclass must be a class.")),
            Err(_) => {
                let mut message = String::from_str("Undefined variable '");
                message.append("super");
                message.append("'.");
                Outcome::Failed(RuntimeError { token: keyword.duplicate(), message })
            },
        }
    }

    /// Evaluates an expression: its value, a runtime error, or the request it waits on.
    #[verifier::spinoff_prover]
    #[verifier::rlimit(40)]
    pub fn evaluate(&mut self, expr: &Expr, replies: &Replies, cursor: &mut Cursor, output: &mut Vec<String>) -> (r: Outcome<Literal>)
        requires
            old(self).wf(),
            old(cursor).iterations <= replies.iterations,
        ensures
            final(self).wf(),
            old(self).scope_count() <= final(self).scope_count(),
            old(cursor).iterations <= final(cursor).iterations <= replies.iterations,
            eval(*expr, old(self).state(*old(cursor), texts_view(old(output)@)), *replies) == (
                step_of(r),
                final(self).state(*final(cursor), texts_view(final(output)@)),
            ),
        decreases replies.iterations - old(cursor).iterations, 0int, expr, 1int,
    {
        match expr {
            Expr::Literal { value, .. } => Outcome::Done(value.duplicate()),
            Expr::Grouping { expression, .. } => self.evaluate(expression, replies, cursor, output),
            Expr::Variable { name, .. } => self.look_up(name, Ghost(*cursor), Ghost(texts_view(output@))),
            Expr::Assign { name, value, .. } => match self.evaluate(value, replies, cursor, output) {
                Outcome::Done(v) => self.assign_variable(name, v, Ghost(*cursor), Ghost(texts_view(output@))),
                other => other,
            },
            Expr::Logical { left, operator, right, .. } => match self.evaluate(left, replies, cursor, output) {
                Outcome::Done(v) => {
                    if (operator.token_type() == TokenType::Or) == self.is_truthy(&v) {
                        Outcome::Done(v)
                    } else {
                        self.evaluate(right, replies, cursor, output)
                    }
                },
                other => other,
            },
            Expr::Unary { operator, right, .. } => match self.evaluate(right, replies, cursor, output) {
                Outcome::Done(v) => self.evaluate_unary(operator, &v, replies, cursor),
                other => other,
            },
            Expr::Binary { left, operator, right, .. } => match self.evaluate(left, replies, cursor, output) {
                Outcome::Done(lv) => match self.evaluate(right, replies, cursor, output) {
                    Outcome::Done(rv) => self.evaluate_binary(&lv, operator, &rv, replies, cursor),
                    other => other,
                },
                other => other,
            },
            Expr::Ternary { condition, then_branch, else_branch, .. } => match self.evaluate(condition, replies, cursor, output) {
                Outcome::Done(v) => if let Literal::Bool(true) = v {
                    self.evaluate(then_branch, replies, cursor, output)
                } else {
                    self.evaluate(else_branch, replies, cursor, output)
                },
                other => other,
            },
            Expr::Call { .. } => self.evaluate_call(expr, replies, cursor, output),
            Expr::Get { object, name, .. } => match self.evaluate(object, replies, cursor, output) {
                Outcome::Done(ov) => match ov {
                    Literal::Instance(k) => if k < self.objects.len() {
                        self.get_property(k, name, Ghost(*cursor), Ghost(texts_view(output@)))
                    } else {
                        Outcome::Failed(self.runtime_error(name, "Only instances have properties."))
                    },
                    _ => Outcome::Failed(self.runtime_error(name, "Only instances have properties.")),
                },
                other => other,
            },
            Expr::SetField { object, name, value, .. } => match self.evaluate(object, replies, cursor, output) {
                Outcome::Done(ov) => match ov {
                    Literal::Instance(k) => if k < self.objects.len() {
                        match self.evaluate(value, replies, cursor, output) {
                            Outcome::Done(v) => if k < self.objects.len() {
                                self.set_field(k, name, v.duplicate(), Ghost(*cursor), Ghost(texts_view(output@)));
                                Outcome::Done(v)
                            } else {
                                Outcome::Failed(self.runtime_error(name, "Only instances have fields."))
                            },
                            other => other,
                        }
                    } else {
                        Outcome::Failed(self.runtime_error(name, "Only instances have fields."))
                    },
                    _ => Outcome::Failed(self.runtime_error(name, "Only instances have fields.")),
                },
                other => other,
            },
            Expr::This { keyword, .. } => self.look_up(keyword, Ghost(*cursor), Ghost(texts_view(output@))),
            Expr::Super { keyword, method, .. } => self.evaluate_super(keyword, method, Ghost(*cursor), Ghost(texts_view(output@))),
        }
    }

    /// Evaluates a call: the callee, then the arguments from left to right, then the
    /// body of the function called, which takes one step.
    #[verifier::spinoff_prover]
    #[verifier::rlimit(40)]
    fn evaluate_call(&mut self, expr: &Expr, replies: &Replies, cursor: &mut Cursor, output: &mut Vec<String>) -> (r: Outcome<Literal>)
        requires
            old(self).wf(),
            old(cursor).iterations <= replies.iterations,
            expr is Call,
        ensures
            final(self).wf(),
            old(self).scope_count() <= final(self).scope_count(),
            old(cursor).iterations <= final(cursor).iterations <= replies.iterations,
            eval(*expr, old(self).state(*old(cursor), texts_view(old(output)@)), *replies) == (
                step_of(r),
                final(self).state(*final(cursor), texts_view(final(output)@)),
            ),
        decreases replies.iterations - old(cursor).iterations, 0int, expr, 0int,
    {
        match expr {
        Expr::Call { callee: f, paren, arguments, .. } => match self.evaluate(f, replies, cursor, output) {
            Outcome::Done(fv) => match self.evaluate_args(arguments, replies, cursor, output) {
                Outcome::Done(args) => {
                    let ghost s2 = self.state(*cursor, texts_view(output@));
                    proof {
                        self.lemma_wf(*cursor, texts_view(output@));
                    }
                    match fv {
                        Literal::Class(c) => if c < self.classes.len() {
                            if args.len() != 0 {
                                let mut message = String::from_str("Expected ");
                                message.append(decimal(0).as_str());
                                message.append(" arguments but got ");
                                message.append(decimal(args.len()).as_str());
                                message.append(".");
                                Outcome::Failed(RuntimeError { token: paren.duplicate(), message })
                            } else {
                                Outcome::Done(self.instantiate(c, Ghost(*cursor), Ghost(texts_view(output@))))
                            }
                        } else {
                            Outcome::Failed(self.runtime_error(paren, "Can only call functions and classes."))
                        },
                        Literal::Callable(i) => if i < self.functions.len() {
                            let fun = self.functions[i].duplicate();
                            assert(s2.funs[i as int] == fun@);
                            if args.len() != fun.arity() {
                                let mut message = String::from_str("Expected ");
                                message.append(decimal(fun.arity()).as_str());
                                message.append(" arguments but got ");
                                message.append(decimal(args.len()).as_str());
                                message.append(".");
                                Outcome::Failed(RuntimeError { token: paren.duplicate(), message })
                            } else if cursor.iterations < replies.iterations {
                                one_step_more(cursor, replies);
                                self.invoke(&fun, &args, replies, cursor, output)
                            } else {
                                Outcome::Pending(Request::Iterate)
                            }
                        } else {
                            Outcome::Failed(self.runtime_error(paren, "Can only call functions and classes."))
                        },
                        _ => Outcome::Failed(self.runtime_error(paren, "Can only call functions and classes.")),
                    }
                },
                Outcome::Failed(e) => Outcome::Failed(e),
                Outcome::Pending(q) => Outcome::Pending(q),
            },
            other => other,
        },
            _ => Outcome::Pending(Request::Iterate),
        }
    }

    /// Evaluates the arguments of a call from left to right.
    #[verifier::spinoff_prover]
    #[verifier::rlimit(40)]
    fn evaluate_args(&mut self, arguments: &Vec<Expr>, replies: &Replies, cursor: &mut Cursor, output: &mut Vec<String>) -> (r: Outcome<Vec<Literal>>)
        requires
            old(self).wf(),
            old(cursor).iterations <= replies.iterations,
        ensures
            final(self).wf(),
            old(self).scope_count() <= final(self).scope_count(),
            old(cursor).iterations <= final(cursor).iterations <= replies.iterations,
            eval_args(arguments@, 0, old(self).state(*old(cursor), texts_view(old(output)@)), *replies) == (
                values_of(r),
                final(self).state(*final(cursor), texts_view(final(output)@)),
            ),
        decreases replies.iterations - old(cursor).iterations, 0int, arguments@, 0int,
    {
        let ghost start = (old(self).state(*old(cursor), texts_view(old(output)@)), old(cursor).iterations);
        let mut values: Vec<Literal> = Vec::new();
        let mut i: usize = 0;
        while i < arguments.len()
            invariant
                self.wf(),
                old(self).scope_count() <= self.scope_count(),
                i <= arguments@.len(),
                start.1 <= cursor.iterations <= replies.iterations,
                start.1 == old(cursor).iterations,
                start.0 == old(self).state(*old(cursor), texts_view(old(output)@)),
                ({
                    let (y, s) = eval_args(arguments@, i as int, self.state(*cursor, texts_view(output@)), *replies);
                    eval_args(arguments@, 0, start.0, *replies) == match y {
                        Step::Done(vs) => (Step::Done(values@.map_values(|l: Literal| l@) + vs), s),
                        _ => (y, s),
                    }
                }),
            decreases arguments@.len() - i,
        {
            let ghost s0 = self.state(*cursor, texts_view(output@));
            match self.evaluate(&arguments[i], replies, cursor, output) {
                Outcome::Done(v) => {
                    proof {
                        let s1 = self.state(*cursor, texts_view(output@));
                        let (y, s2) = eval_args(arguments@, i + 1, s1, *replies);
                        assert(values@.push(v).map_values(|l: Literal| l@) =~= values@.map_values(|l: Literal| l@).push(v@));
                        if let Step::Done(vs) = y {
                            assert(values@.map_values(|l: Literal| l@).push(v@) + vs =~= values@.map_values(|l: Literal| l@) + (seq![v@] + vs));
                        }
                    }
                    values.push(v);
                },
                Outcome::Failed(e) => {
                    proof {
                        let s1 = self.state(*cursor, texts_view(output@));
                        assert(eval(arguments@[i as int], s0, *replies) == (Step::<Value>::Failed(e.token, e.message@), s1));
                        assert(eval_args(arguments@, i as int, s0, *replies) == (Step::<Seq<Value>>::Failed(e.token, e.message@), s1));
                    }
                    return Outcome::Failed(e);
                },
                Outcome::Pending(q) => {
                    proof {
                        let s1 = self.state(*cursor, texts_view(output@));
                        assert(eval(arguments@[i as int], s0, *replies) == (Step::<Value>::Pending(q), s1));
                        assert(eval_args(arguments@, i as int, s0, *replies) == (Step::<Seq<Value>>::Pending(q), s1));
                    }
                    return Outcome::Pending(q);
                },
            }
            i = i + 1;
        }
        assert(values@.map_values(|l: Literal| l@) + Seq::<Value>::empty() =~= values@.map_values(|l: Literal| l@));
        Outcome::Done(values)
    }

    /// Runs the body of `f` on `arguments`, in a new scope nested in the one `f` was
    /// declared in; the current scope is the caller's again afterwards.
    #[verifier::spinoff_prover]
    #[verifier::rlimit(40)]
    pub(crate) fn invoke(&mut self, f: &FunctionCallable<'a>, arguments: &Vec<Literal>, replies: &Replies, cursor: &mut Cursor, output: &mut Vec<String>) -> (r: Outcome<Literal>)
        requires
            old(self).wf(),
            f@.closure < old(self).state(*old(cursor), texts_view(old(output)@)).scopes.len(),
            old(cursor).iterations <= replies.iterations,
        ensures
            final(self).wf(),
            old(self).scope_count() <= final(self).scope_count(),
            old(cursor).iterations <= final(cursor).iterations <= replies.iterations,
            invoke(f@, arguments@.map_values(|l: Literal| l@), old(self).state(*old(cursor), texts_view(old(output)@)), *replies) == (
                step_of(r),
                final(self).state(*final(cursor), texts_view(final(output)@)),
            ),
        decreases replies.iterations - old(cursor).iterations, 1int, f@.body, f@.body.len() + 1,
    {
        let ghost st = self.state(*cursor, texts_view(output@));
        let ghost args = arguments@.map_values(|l: Literal| l@);
        let params = f.params();
        let body = f.body();
        let frame = self.environment.new_enclosed(f.closure());
        let n = if params.len() <= arguments.len() { params.len() } else { arguments.len() };
        let mut i: usize = 0;
        while i < n
            invariant
                self.wf(),
                self.current == old(self).current,
                self.functions == old(self).functions,
                self.classes == old(self).classes,
                self.objects == old(self).objects,
                frame == st.scopes.len(),
                params@ == f@.params,
                n == bound_count(params@.len(), arguments@.len()),
                args == arguments@.map_values(|l: Literal| l@),
                i <= n,
                self.environment.scopes() == st.scopes.push(Scope {
                    vars: bind_params(params@, args, i as nat),
                    enclosing: Some(f@.closure),
                }),
            decreases n - i,
        {
            self.environment.define(frame, &params[i], arguments[i].duplicate());
            proof {
                assert(self.environment.scopes() =~= st.scopes.push(Scope {
                    vars: bind_params(params@, args, (i + 1) as nat),
                    enclosing: Some(f@.closure),
                }));
            }
            i = i + 1;
        }
        let saved = self.current;
        self.current = frame;
        let o = self.execute_list(body, replies, cursor, output);
        self.current = saved;
        returned(o)
    }

    /// Executes one statement.
    #[verifier::spinoff_prover]
    #[verifier::rlimit(40)]
    fn execute(&mut self, stmt: &'a Stmt, replies: &Replies, cursor: &mut Cursor, output: &mut Vec<String>) -> (r: Outcome<Option<Literal>>)
        requires
            old(self).wf(),
            old(cursor).iterations <= replies.iterations,
        ensures
            final(self).wf(),
            old(self).scope_count() <= final(self).scope_count(),
            old(cursor).iterations <= final(cursor).iterations <= replies.iterations,
            exec_stmt(*stmt, old(self).state(*old(cursor), texts_view(old(output)@)), *replies) == (
                completion_of(r),
                final(self).state(*final(cursor), texts_view(final(output)@)),
            ),
        decreases replies.iterations - old(cursor).iterations, 1int, stmt, 1int,
    {
        match stmt {
            Stmt::Expression { expression } => match self.evaluate(expression, replies, cursor, output) {
                Outcome::Done(_) => Outcome::Done(None),
                other => abandon_completion(other),
            },
            Stmt::Print { expression } => match self.evaluate(expression, replies, cursor, output) {
                Outcome::Done(v) => match self.show(&v, replies, cursor) {
                    Outcome::Done(text) => {
                        proof {
                            assert(texts_view(output@.push(text)) =~= texts_view(output@).push(text@));
                        }
                        output.push(text);
                        Outcome::Done(None)
                    },
                    other => abandon_shown(other),
                },
                other => abandon_completion(other),
            },
            Stmt::Var { name, initializer } => match self.evaluate(initializer, replies, cursor, output) {
                Outcome::Done(v) => {
                    self.environment.define(self.current, name, v);
                    Outcome::Done(None)
                },
                other => abandon_completion(other),
            },
            Stmt::Block { statements } => {
                let saved = self.current;
                self.current = self.environment.new_enclosed(saved);
                let r = self.execute_list(statements, replies, cursor, output);
                self.current = saved;
                r
            },
            Stmt::If { condition, then_branch, else_branch } => match self.evaluate(condition, replies, cursor, output) {
                Outcome::Done(v) => if self.is_truthy(&v) {
                    self.execute(then_branch, replies, cursor, output)
                } else {
                    match else_branch {
                        Some(b) => self.execute(b, replies, cursor, output),
                        None => Outcome::Done(None),
                    }
                },
                other => abandon_completion(other),
            },
            Stmt::While { .. } => self.execute_while(stmt, replies, cursor, output),
            Stmt::Function { name, params, body } => {
                let index = self.functions.len();
                let f = FunctionCallable::new(params, body, self.current);
                self.functions.push(f);
                self.environment.define(self.current, name, Literal::Callable(index));
                proof {
                    let fs = self.functions@.map_values(|g: FunctionCallable<'a>| g@);
                    assert(fs =~= old(self).functions@.map_values(|g: FunctionCallable<'a>| g@).push(f@));
                    assert forall|i: int| 0 <= i < self.functions@.len() implies (#[trigger] self.functions@[i])@.closure
                        < self.environment.scopes().len() by {
                        if i < old(self).functions@.len() {
                            assert(self.functions@[i] == old(self).functions@[i]);
                        }
                    }
                }
                Outcome::Done(None)
            },
            Stmt::Class { name, superclass, methods } => match superclass {
                None => {
                    self.declare_class(name, methods, self.current, None, Ghost(*cursor), Ghost(texts_view(output@)));
                    Outcome::Done(None)
                },
                Some(sn) => match self.environment.get(self.current, sn) {
                    Ok(Literal::Class(sc)) => if sc < self.classes.len() {
                        let frame = self.environment.new_enclosed(self.current);
                        let super_name = Token::new(TokenType::Super, String::from_str("super"), None, 0);
                        self.environment.define(frame, &super_name, Literal::Class(sc));
                        proof {
                            let st = old(self).state(*old(cursor), texts_view(old(output)@));
                            assert(self.environment.scopes() =~= st.scopes.push(Scope {
                                vars: Map::empty().insert("super"@, Value::Class(sc)),
                                enclosing: Some(st.env),
                            }));
                        }
                        self.declare_class(name, methods, frame, Some(sc), Ghost(*cursor), Ghost(texts_view(output@)));
                        Outcome::Done(None)
                    } else {
                        Outcome::Failed(self.runtime_error(sn, "Superclass must be a class."))
                    },
                    Ok(_) => Outcome::Failed(self.runtime_error(sn, "Superclass must be a class.")),
                    Err(RuntimeException::Error { token, message }) => Outcome::Failed(RuntimeError { token, message }),
                    Err(RuntimeException::Return { .. }) => {
                        assert(false);
                        Outcome::Pending(Request::Iterate)
                    },
                },
            },
            Stmt::Return { value, .. } => match value {
                Some(e) => match self.evaluate(e, replies, cursor, output) {
                    Outcome::Done(v) => Outcome::Done(Some(v)),
                    other => abandon_completion(other),
                },
                None => Outcome::Done(Some(Literal::Nil)),
            },
        }
    }

    /// Executes `statements` in order, stopping at the first that does not complete.
    #[verifier::spinoff_prover]
    #[verifier::rlimit(40)]
    fn execute_list(&mut self, statements: &'a Vec<Stmt>, replies: &Replies, cursor: &mut Cursor, output: &mut Vec<String>) -> (r: Outcome<Option<Literal>>)
        requires
            old(self).wf(),
            old(cursor).iterations <= replies.iterations,
        ensures
            final(self).wf(),
            old(self).scope_count() <= final(self).scope_count(),
            old(cursor).iterations <= final(cursor).iterations <= replies.iterations,
            exec_from(statements@, 0, old(self).state(*old(cursor), texts_view(old(output)@)), *replies) == (
                completion_of(r),
                final(self).state(*final(cursor), texts_view(final(output)@)),
            ),
        decreases replies.iterations - old(cursor).iterations, 1int, statements@, 0int,
    {
        let ghost start = (old(self).state(*old(cursor), texts_view(old(output)@)), old(cursor).iterations);
        let mut i: usize = 0;
        while i < statements.len()
            invariant
                self.wf(),
                old(self).scope_count() <= self.scope_count(),
                i <= statements@.len(),
                start.1 == old(cursor).iterations,
                start.0 == old(self).state(*old(cursor), texts_view(old(output)@)),
                start.1 <= cursor.iterations <= replies.iterations,
                exec_from(statements@, 0, start.0, *replies) == exec_from(
                    statements@,
                    i as int,
                    self.state(*cursor, texts_view(output@)),
                    *replies,
                ),
            decreases statements@.len() - i,
        {
            let ghost s0 = self.state(*cursor, texts_view(output@));
            let o = self.execute(&statements[i], replies, cursor, output);
            proof {
                let s1 = self.state(*cursor, texts_view(output@));
                assert(exec_stmt(statements@[i as int], s0, *replies) == (completion_of(o), s1));
                assert(exec_from(statements@, i as int, s0, *replies) == match completion_of(o) {
                    Step::Done(None) => exec_from(statements@, i + 1, s1, *replies),
                    x => (x, s1),
                });
            }
            match o {
                Outcome::Done(None) => {},
                other => return other,
            }
            i = i + 1;
        }
        Outcome::Done(None)
    }

    /// Runs the `while` statement `stmt`.
    #[verifier::spinoff_prover]
    #[verifier::rlimit(40)]
    fn execute_while(&mut self, stmt: &'a Stmt, replies: &Replies, cursor: &mut Cursor, output: &mut Vec<String>) -> (r: Outcome<Option<Literal>>)
        requires
            old(self).wf(),
            old(cursor).iterations <= replies.iterations,
            stmt is While,
        ensures
            final(self).wf(),
            old(self).scope_count() <= final(self).scope_count(),
            old(cursor).iterations <= final(cursor).iterations <= replies.iterations,
            run_while(*stmt, old(self).state(*old(cursor), texts_view(old(output)@)), *replies) == (
                completion_of(r),
                final(self).state(*final(cursor), texts_view(final(output)@)),
            ),
        decreases replies.iterations - old(cursor).iterations, 1int, stmt, 0int,
    {
        match stmt {
            Stmt::While { condition, body } => {
                let ghost start = (old(self).state(*old(cursor), texts_view(old(output)@)), old(cursor).iterations);
                loop
                    invariant
                        self.wf(),
                        old(self).scope_count() <= self.scope_count(),
                        start.1 == old(cursor).iterations,
                        start.0 == old(self).state(*old(cursor), texts_view(old(output)@)),
                        *stmt == (Stmt::While { condition: *condition, body: *body }),
                        start.1 <= cursor.iterations <= replies.iterations,
                        run_while(*stmt, start.0, *replies) == run_while(*stmt, self.state(*cursor, texts_view(output@)), *replies),
                    decreases replies.iterations - cursor.iterations,
                {
                    let ghost s0 = self.state(*cursor, texts_view(output@));
                    let o = self.evaluate(condition, replies, cursor, output);
                    proof {
                        let s1 = self.state(*cursor, texts_view(output@));
                        assert(eval(**condition, s0, *replies) == (step_of(o), s1));
                        lemma_run_while_unfold(*stmt, s0, *replies);
                    }
                    match o {
                        Outcome::Done(v) => {
                            if !self.is_truthy(&v) {
                                return Outcome::Done(None);
                            }
                            if cursor.iterations >= replies.iterations {
                                return Outcome::Pending(Request::Iterate);
                            }
                            one_step_more(cursor, replies);
                            match self.execute(body, replies, cursor, output) {
                                Outcome::Done(None) => {},
                                other => return other,
                            }
                        },
                        other => return abandon_completion(other),
                    }
                }
            },
            _ => Outcome::Done(None),
        }
    }

    /// Runs `statements` in order with the replies given so far, and hands back the
    /// lines printed. When the run waits on a request, the evaluator is left as it was,
    /// so that the run can be made again with the reply added, and the lines are those
    /// printed before the wait: the run made again prints them first again
    /// (`law_replay_prints_again`), so a caller shows only the lines past those it has
    /// shown. Otherwise the evaluator holds the scopes, functions, classes and instances
    /// the run left.
    pub fn interpret(&mut self, statements: &'a Vec<Stmt>, replies: &Replies) -> (r: Interpretation)
        requires
            old(self).wf(),
        ensures
            final(self).wf(),
            ({
                let (x, s1) = run_program(statements@, old(self).state(start_cursor(), Seq::empty()), *replies);
                match x {
                    Step::Pending(q) => r.outcome == Outcome::<()>::Pending(q)
                        && final(self).state(start_cursor(), Seq::empty()) == old(self).state(start_cursor(), Seq::empty())
                        && texts_view(r.output@) == s1.out,
                    _ => step_of(r.outcome) == finished(x) && final(self).state(s1.cursor, s1.out) == s1
                        && texts_view(r.output@) == s1.out,
                }
            }),
    {
        let saved = self.duplicate();
        let mut cursor = Cursor { numbers: 0, orders: 0, texts: 0, iterations: 0 };
        let mut output: Vec<String> = Vec::new();
        assert(texts_view(output@) =~= Seq::<Seq<char>>::empty());
        let o = self.execute_list(statements, replies, &mut cursor, &mut output);
        let outcome = match o {
            Outcome::Done(_) => Outcome::Done(()),
            Outcome::Failed(e) => Outcome::Failed(e),
            Outcome::Pending(q) => {
                *self = saved;
                Outcome::Pending(q)
            },
        };
        Interpretation { output, outcome }
    }

    /// A copy of this evaluator.
    fn duplicate(&self) -> (r: Evaluator<'a>)
        requires
            self.wf(),
        ensures
            r.wf(),
            forall|c: Cursor, out: Seq<Seq<char>>| #[trigger] r.state(c, out) == self.state(c, out),
    {
        let mut functions: Vec<FunctionCallable<'a>> = Vec::new();
        let mut i: usize = 0;
        while i < self.functions.len()
            invariant
                i <= self.functions@.len(),
                functions@ == self.functions@.take(i as int),
            decreases self.functions@.len() - i,
        {
            functions.push(self.functions[i].duplicate());
            i = i + 1;
            assert(functions@ =~= self.functions@.take(i as int));
        }
        assert(functions@ =~= self.functions@);
        let mut classes: Vec<ClassEntry<'a>> = Vec::new();
        let mut i: usize = 0;
        while i < self.classes.len()
            invariant
                i <= self.classes@.len(),
                classes@ == self.classes@.take(i as int),
            decreases self.classes@.len() - i,
        {
            let c = &self.classes[i];
            classes.push(ClassEntry { name: c.name.clone(), methods: c.methods, closure: c.closure, superclass: c.superclass });
            i = i + 1;
            assert(classes@ =~= self.classes@.take(i as int));
        }
        assert(classes@ =~= self.classes@);
        let mut objects: Vec<ObjectEntry> = Vec::new();
        let mut i: usize = 0;
        while i < self.objects.len()
            invariant
                i <= self.objects@.len(),
                objects@.len() == i,
                forall|k: int| 0 <= k < i ==> (#[trigger] objects@[k]).fields@ == self.objects@[k].fields@
                    && objects@[k].class == self.objects@[k].class,
            decreases self.objects@.len() - i,
        {
            let o = &self.objects[i];
            let mut fields: Vec<(String, Literal)> = Vec::new();
            let mut j: usize = 0;
            while j < o.fields.len()
                invariant
                    j <= o.fields@.len(),
                    fields@ == o.fields@.take(j as int),
                decreases o.fields@.len() - j,
            {
                fields.push((o.fields[j].0.clone(), o.fields[j].1.duplicate()));
                j = j + 1;
                assert(fields@ =~= o.fields@.take(j as int));
            }
            assert(fields@ =~= o.fields@);
            objects.push(ObjectEntry { class: o.class, fields });
            i = i + 1;
        }
        let r = Evaluator { environment: self.environment.duplicate(), current: self.current, functions, classes, objects };
        assert forall|c: Cursor, out: Seq<Seq<char>>| #[trigger] r.state(c, out) == self.state(c, out) by {
            assert(r.state(c, out).objects =~= self.state(c, out).objects);
        }
        r
    }
}

} // verus!
