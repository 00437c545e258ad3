use vstd::prelude::*;
use crate::datastructs::expr::Expr;
use crate::datastructs::literal::Literal;
use crate::datastructs::token::{Token, TokenType};
use crate::errors::ParseError;

verus! {

// The grammar, with the ternary and comma operators:
//   expression -> comma ;
//   comma      -> ternary ( "," ternary )* ;
//   ternary    -> equality ( "?" expression ":" ternary )? ;
//   equality   -> comparison ( ( "!=" | "==" ) comparison )* ;
//   comparison -> term ( ( ">" | ">=" | "<" | "<=" ) term )* ;
//   term       -> factor ( ( "-" | "+" ) factor )* ;
//   factor     -> unary ( ( "/" | "*" ) unary )* ;
//   unary      -> ( "!" | "-" ) unary | primary ;
//   primary    -> NUMBER | STRING | "true" | "false" | "nil" | "(" expression ")" ;
//
// Each rule below reads the tokens `t` from position `p`, numbering the nodes it builds
// from `id` on (each node takes the next number once its parts are built). It gives the
// expression, the position after it and the next unused number, or the position of the
// token where parsing failed and the message of the error.

/// What a grammar rule gives: the expression, the next position and the next unused id;
/// or the position of the offending token and the error message.
pub type Parsed = Result<(Expr, int, int), (int, Seq<char>)>;

/// The token at `p` ends the input.
pub open spec fn at_end(t: Seq<Token>, p: int) -> bool {
    t[p].token_type == TokenType::Eof
}

/// The token at `p` is of kind `ty` and does not end the input.
pub open spec fn check(t: Seq<Token>, p: int, ty: TokenType) -> bool {
    0 <= p < t.len() && !at_end(t, p) && t[p].token_type == ty
}

/// The token at `p` is of one of the kinds `types` and does not end the input.
pub open spec fn matches_any(t: Seq<Token>, p: int, types: Seq<TokenType>) -> bool {
    exists|i: int| 0 <= i < types.len() && check(t, p, types[i])
}

/// A position that a rule started at `p` may end at.
pub open spec fn after(t: Seq<Token>, p: int, q: int) -> bool {
    p <= q <= t.len()
}

pub open spec fn expression_at(t: Seq<Token>, p: int, id: int) -> Parsed
    decreases t.len() - p, 21int,
{
    comma_at(t, p, id)
}

pub open spec fn comma_at(t: Seq<Token>, p: int, id: int) -> Parsed
    decreases t.len() - p, 20int,
{
    match ternary_at(t, p, id) {
        Ok((e, q, i)) => if after(t, p, q) {
            comma_tail(t, q, i, e)
        } else {
            Err((q, Seq::empty()))
        },
        Err(err) => Err(err),
    }
}

pub open spec fn comma_tail(t: Seq<Token>, p: int, id: int, left: Expr) -> Parsed
    decreases t.len() - p, 19int,
{
    if check(t, p, TokenType::Comma) {
        match ternary_at(t, p + 1, id) {
            Ok((right, q, i)) => if after(t, p + 1, q) {
                comma_tail(
                    t,
                    q,
                    i + 1,
                    Expr::Binary {
                        left: Box::new(left),
                        operator: t[p],
                        right: Box::new(right),
                        id: i as usize,
                    },
                )
            } else {
                Err((q, Seq::empty()))
            },
            Err(err) => Err(err),
        }
    } else {
        Ok((left, p, id))
    }
}

pub open spec fn ternary_at(t: Seq<Token>, p: int, id: int) -> Parsed
    decreases t.len() - p, 18int,
{
    match equality_at(t, p, id) {
        Ok((condition, q, i)) => if !after(t, p, q) {
            Err((q, Seq::empty()))
        } else if check(t, q, TokenType::Question) {
            match expression_at(t, q + 1, i) {
                Ok((then_branch, q2, i2)) => if !after(t, q + 1, q2) {
                    Err((q2, Seq::empty()))
                } else if check(t, q2, TokenType::Colon) {
                    match ternary_at(t, q2 + 1, i2) {
                        Ok((else_branch, q3, i3)) => Ok(
                            (
                                Expr::Ternary {
                                    condition: Box::new(condition),
                                    then_branch: Box::new(then_branch),
                                    else_branch: Box::new(else_branch),
                                    id: i3 as usize,
                                },
                                q3,
                                i3 + 1,
                            ),
                        ),
                        Err(err) => Err(err),
                    }
                } else {
                    Err((q2, "Expect ':' after then branch of ternary expression."@))
                },
                Err(err) => Err(err),
            }
        } else {
            Ok((condition, q, i))
        },
        Err(err) => Err(err),
    }
}

pub open spec fn equality_ops() -> Seq<TokenType> {
    seq![TokenType::BangEqual, TokenType::EqualEqual]
}

pub open spec fn comparison_ops() -> Seq<TokenType> {
    seq![TokenType::Greater, TokenType::GreaterEqual, TokenType::Less, TokenType::LessEqual]
}

pub open spec fn term_ops() -> Seq<TokenType> {
    seq![TokenType::Minus, TokenType::Plus]
}

pub open spec fn factor_ops() -> Seq<TokenType> {
    seq![TokenType::Slash, TokenType::Star]
}

pub open spec fn unary_ops() -> Seq<TokenType> {
    seq![TokenType::Bang, TokenType::Minus]
}

pub open spec fn equality_at(t: Seq<Token>, p: int, id: int) -> Parsed
    decreases t.len() - p, 17int,
{
    match comparison_at(t, p, id) {
        Ok((e, q, i)) => if after(t, p, q) {
            equality_tail(t, q, i, e)
        } else {
            Err((q, Seq::empty()))
        },
        Err(err) => Err(err),
    }
}

pub open spec fn equality_tail(t: Seq<Token>, p: int, id: int, left: Expr) -> Parsed
    decreases t.len() - p, 16int,
{
    if matches_any(t, p, equality_ops()) {
        match comparison_at(t, p + 1, id) {
            Ok((right, q, i)) => if after(t, p + 1, q) {
                equality_tail(
                    t,
                    q,
                    i + 1,
                    Expr::Binary {
                        left: Box::new(left),
                        operator: t[p],
                        right: Box::new(right),
                        id: i as usize,
                    },
                )
            } else {
                Err((q, Seq::empty()))
            },
            Err(err) => Err(err),
        }
    } else {
        Ok((left, p, id))
    }
}

pub open spec fn comparison_at(t: Seq<Token>, p: int, id: int) -> Parsed
    decreases t.len() - p, 15int,
{
    match term_at(t, p, id) {
        Ok((e, q, i)) => if after(t, p, q) {
            comparison_tail(t, q, i, e)
        } else {
            Err((q, Seq::empty()))
        },
        Err(err) => Err(err),
    }
}

pub open spec fn comparison_tail(t: Seq<Token>, p: int, id: int, left: Expr) -> Parsed
    decreases t.len() - p, 14int,
{
    if matches_any(t, p, comparison_ops()) {
        match term_at(t, p + 1, id) {
            Ok((right, q, i)) => if after(t, p + 1, q) {
                comparison_tail(
                    t,
                    q,
                    i + 1,
                    Expr::Binary {
                        left: Box::new(left),
                        operator: t[p],
                        right: Box::new(right),
                        id: i as usize,
                    },
                )
            } else {
                Err((q, Seq::empty()))
            },
            Err(err) => Err(err),
        }
    } else {
        Ok((left, p, id))
    }
}

pub open spec fn term_at(t: Seq<Token>, p: int, id: int) -> Parsed
    decreases t.len() - p, 13int,
{
    match factor_at(t, p, id) {
        Ok((e, q, i)) => if after(t, p, q) {
            term_tail(t, q, i, e)
        } else {
            Err((q, Seq::empty()))
        },
        Err(err) => Err(err),
    }
}

pub open spec fn term_tail(t: Seq<Token>, p: int, id: int, left: Expr) -> Parsed
    decreases t.len() - p, 12int,
{
    if matches_any(t, p, term_ops()) {
        match factor_at(t, p + 1, id) {
            Ok((right, q, i)) => if after(t, p + 1, q) {
                term_tail(
                    t,
                    q,
                    i + 1,
                    Expr::Binary {
                        left: Box::new(left),
                        operator: t[p],
                        right: Box::new(right),
                        id: i as usize,
                    },
                )
            } else {
                Err((q, Seq::empty()))
            },
            Err(err) => Err(err),
        }
    } else {
        Ok((left, p, id))
    }
}

pub open spec fn factor_at(t: Seq<Token>, p: int, id: int) -> Parsed
    decreases t.len() - p, 11int,
{
    match unary_at(t, p, id) {
        Ok((e, q, i)) => if after(t, p, q) {
            factor_tail(t, q, i, e)
        } else {
            Err((q, Seq::empty()))
        },
        Err(err) => Err(err),
    }
}

pub open spec fn factor_tail(t: Seq<Token>, p: int, id: int, left: Expr) -> Parsed
    decreases t.len() - p, 10int,
{
    if matches_any(t, p, factor_ops()) {
        match unary_at(t, p + 1, id) {
            Ok((right, q, i)) => if after(t, p + 1, q) {
                factor_tail(
                    t,
                    q,
                    i + 1,
                    Expr::Binary {
                        left: Box::new(left),
                        operator: t[p],
                        right: Box::new(right),
                        id: i as usize,
                    },
                )
            } else {
                Err((q, Seq::empty()))
            },
            Err(err) => Err(err),
        }
    } else {
        Ok((left, p, id))
    }
}

pub open spec fn unary_at(t: Seq<Token>, p: int, id: int) -> Parsed
    decreases t.len() - p, 9int,
{
    if matches_any(t, p, unary_ops()) {
        match unary_at(t, p + 1, id) {
            Ok((right, q, i)) => Ok(
                (Expr::Unary { operator: t[p], right: Box::new(right), id: i as usize }, q, i + 1),
            ),
            Err(err) => Err(err),
        }
    } else {
        primary_at(t, p, id)
    }
}

pub open spec fn primary_at(t: Seq<Token>, p: int, id: int) -> Parsed
    decreases t.len() - p, 8int,
{
    if check(t, p, TokenType::False) {
        Ok((Expr::Literal { value: Literal::Bool(false), id: id as usize }, p + 1, id + 1))
    } else if check(t, p, TokenType::True) {
        Ok((Expr::Literal { value: Literal::Bool(true), id: id as usize }, p + 1, id + 1))
    } else if check(t, p, TokenType::Nil) {
        Ok((Expr::Literal { value: Literal::Nil, id: id as usize }, p + 1, id + 1))
    } else if check(t, p, TokenType::Number) || check(t, p, TokenType::String) {
        Ok((Expr::Literal { value: t[p].literal.unwrap(), id: id as usize }, p + 1, id + 1))
    } else if check(t, p, TokenType::LeftParen) {
        match expression_at(t, p + 1, id) {
            Ok((e, q, i)) => if check(t, q, TokenType::RightParen) {
                Ok((Expr::Grouping { expression: Box::new(e), id: i as usize }, q + 1, i + 1))
            } else {
                Err((q, "Expect ')' after expression."@))
            },
            Err(err) => Err(err),
        }
    } else {
        Err((p, "Expected expression."@))
    }
}

/// A token kind that begins a statement.
pub open spec fn starts_statement(ty: TokenType) -> bool {
    ty == TokenType::Class || ty == TokenType::Fun || ty == TokenType::Var || ty == TokenType::For
        || ty == TokenType::If || ty == TokenType::While || ty == TokenType::Print || ty
        == TokenType::Return
}

/// Where error recovery stops when scanning from `q`: at the end of input, just after a
/// `;`, or at a token that begins a statement.
pub open spec fn sync_scan(t: Seq<Token>, q: int) -> int
    decreases t.len() - q,
{
    if q < 0 || q >= t.len() || at_end(t, q) {
        q
    } else if q >= 1 && t[q - 1].token_type == TokenType::Semicolon {
        q
    } else if starts_statement(t[q].token_type) {
        q
    } else {
        sync_scan(t, q + 1)
    }
}

/// Where error recovery from `p` stops: it first steps over the token at `p`.
pub open spec fn synchronized(t: Seq<Token>, p: int) -> int {
    sync_scan(t, if at_end(t, p) { p } else { p + 1 })
}

/// The ids of the nodes of `e`, each node listed after its parts: the order in which
/// the parser completes them.
pub open spec fn completion_order(e: Expr) -> Seq<usize>
    decreases e,
{
    match e {
        Expr::Binary { left, right, id, .. } => completion_order(*left) + completion_order(*right)
            + seq![id],
        Expr::Logical { left, right, id, .. } => completion_order(*left) + completion_order(*right)
            + seq![id],
        Expr::Ternary { condition, then_branch, else_branch, id } => completion_order(*condition)
            + completion_order(*then_branch) + completion_order(*else_branch) + seq![id],
        Expr::Unary { right, id, .. } => completion_order(*right) + seq![id],
        Expr::Grouping { expression, id } => completion_order(*expression) + seq![id],
        Expr::Assign { value, id, .. } => completion_order(*value) + seq![id],
        Expr::Get { object, id, .. } => completion_order(*object) + seq![id],
        Expr::SetField { object, value, id, .. } => completion_order(*object) + completion_order(
            *value,
        ) + seq![id],
        Expr::Call { callee, arguments, id, .. } => completion_order(*callee) + completion_order_all(
            arguments@,
        ) + seq![id],
        Expr::Literal { id, .. } => seq![id],
        Expr::Super { id, .. } => seq![id],
        Expr::This { id, .. } => seq![id],
        Expr::Variable { id, .. } => seq![id],
    }
}

/// The completion orders of `es`, one after another.
pub open spec fn completion_order_all(es: Seq<Expr>) -> Seq<usize>
    decreases es,
{
    if es.len() == 0 {
        Seq::empty()
    } else {
        completion_order(es[0]) + completion_order_all(es.drop_first())
    }
}

/// `s` lists the numbers from `i` up to, not including, `j`, in order.
pub open spec fn consecutive(s: Seq<usize>, i: int, j: int) -> bool {
    &&& s.len() == j - i
    &&& forall|k: int| 0 <= k < s.len() ==> s[k] == i + k
}

proof fn lemma_consecutive_concat(a: Seq<usize>, b: Seq<usize>, i: int, m: int, n: int)
    requires
        consecutive(a, i, m),
        consecutive(b, m, n),
    ensures
        consecutive(a + b, i, n),
{
    assert forall|k: int| 0 <= k < (a + b).len() implies (a + b)[k] == i + k by {
        if k >= a.len() {
            assert((a + b)[k] == b[k - a.len()]);
        }
    }
}

proof fn lemma_consecutive_node(a: Seq<usize>, i: int, m: int)
    requires
        consecutive(a, i, m),
        0 <= m <= usize::MAX,
    ensures
        consecutive(a + seq![m as usize], i, m + 1),
{
    assert(consecutive(seq![m as usize], m, m + 1));
    lemma_consecutive_concat(a, seq![m as usize], i, m, m + 1);
}

/// What a rule started at `p` with ids from `i` gives on success: it reads at least one
/// token, builds no more nodes than it reads tokens, and numbers its nodes from `i` on,
/// consecutively, in the order it completes them.
pub open spec fn numbered_from(t: Seq<Token>, p: int, i: int, r: Parsed) -> bool {
    r matches Ok((e, q, j)) ==> {
        &&& p < q <= t.len()
        &&& i <= j
        &&& j - i <= q - p
        &&& consecutive(completion_order(e), i, j)
    }
}

/// What a loop of binary operators started at `p` with ids from `i` gives, when its left
/// operand was read from `p0` and numbered from `i0`.
pub open spec fn numbered_tail(t: Seq<Token>, p0: int, i0: int, r: Parsed) -> bool {
    r matches Ok((e, q, j)) ==> {
        &&& p0 < q <= t.len()
        &&& i0 <= j
        &&& j - i0 <= q - p0
        &&& consecutive(completion_order(e), i0, j)
    }
}

proof fn lemma_expression_at(t: Seq<Token>, p: int, i: int)
    requires
        t.len() <= usize::MAX,
        0 <= i <= p,
    ensures
        numbered_from(t, p, i, expression_at(t, p, i)),
    decreases t.len() - p, 21int,
{
    lemma_comma_at(t, p, i);
}

proof fn lemma_comma_at(t: Seq<Token>, p: int, i: int)
    requires
        t.len() <= usize::MAX,
        0 <= i <= p,
    ensures
        numbered_from(t, p, i, comma_at(t, p, i)),
    decreases t.len() - p, 20int,
{
    lemma_ternary_at(t, p, i);
    match ternary_at(t, p, i) {
        Ok((e, q, j)) => {
            lemma_comma_tail(t, q, j, e, p, i);
        },
        Err(_) => {},
    }
}

proof fn lemma_comma_tail(t: Seq<Token>, p: int, i: int, left: Expr, p0: int, i0: int)
    requires
        t.len() <= usize::MAX,
        0 <= i0 <= p0 < p <= t.len(),
        i0 <= i,
        i - i0 <= p - p0,
        consecutive(completion_order(left), i0, i),
    ensures
        numbered_tail(t, p0, i0, comma_tail(t, p, i, left)),
    decreases t.len() - p, 19int,
{
    if check(t, p, TokenType::Comma) {
        lemma_ternary_at(t, p + 1, i);
        match ternary_at(t, p + 1, i) {
            Ok((right, q, j)) => {
                lemma_consecutive_concat(completion_order(left), completion_order(right), i0, i, j);
                lemma_consecutive_node(completion_order(left) + completion_order(right), i0, j);
                let e = Expr::Binary {
                    left: Box::new(left),
                    operator: t[p],
                    right: Box::new(right),
                    id: j as usize,
                };
                assert(completion_order(e) == completion_order(left) + completion_order(right)
                    + seq![j as usize]);
                lemma_comma_tail(t, q, j + 1, e, p0, i0);
            },
            Err(_) => {},
        }
    }
}

#[verifier::rlimit(80)]
#[verifier::spinoff_prover]
proof fn lemma_ternary_at(t: Seq<Token>, p: int, i: int)
    requires
        t.len() <= usize::MAX,
        0 <= i <= p,
    ensures
        numbered_from(t, p, i, ternary_at(t, p, i)),
    decreases t.len() - p, 18int,
{
    lemma_equality_at(t, p, i);
    match equality_at(t, p, i) {
        Ok((condition, q, i1)) => {
            if after(t, p, q) && check(t, q, TokenType::Question) {
                lemma_expression_at(t, q + 1, i1);
                match expression_at(t, q + 1, i1) {
                    Ok((then_branch, q2, i2)) => {
                        if after(t, q + 1, q2) && check(t, q2, TokenType::Colon) {
                            lemma_ternary_at(t, q2 + 1, i2);
                            match ternary_at(t, q2 + 1, i2) {
                                Ok((else_branch, q3, i3)) => {
                                    let a = completion_order(condition);
                                    let b = completion_order(then_branch);
                                    let c = completion_order(else_branch);
                                    lemma_consecutive_concat(a, b, i, i1, i2);
                                    lemma_consecutive_concat(a + b, c, i, i2, i3);
                                    lemma_consecutive_node(a + b + c, i, i3);
                                    let e = Expr::Ternary {
                                        condition: Box::new(condition),
                                        then_branch: Box::new(then_branch),
                                        else_branch: Box::new(else_branch),
                                        id: i3 as usize,
                                    };
                                    assert(completion_order(e) == a + b + c + seq![i3 as usize]);
                                    assert(ternary_at(t, p, i) == Ok::<(Expr, int, int), (int, Seq<char>)>((e, q3, i3 + 1)));
                                },
                                Err(_) => {},
                            }
                        }
                    },
                    Err(_) => {},
                }
            }
        },
        Err(_) => {},
    }
}

proof fn lemma_equality_at(t: Seq<Token>, p: int, i: int)
    requires
        t.len() <= usize::MAX,
        0 <= i <= p,
    ensures
        numbered_from(t, p, i, equality_at(t, p, i)),
    decreases t.len() - p, 17int,
{
    lemma_comparison_at(t, p, i);
    match comparison_at(t, p, i) {
        Ok((e, q, j)) => {
            lemma_equality_tail(t, q, j, e, p, i);
        },
        Err(_) => {},
    }
}

proof fn lemma_equality_tail(t: Seq<Token>, p: int, i: int, left: Expr, p0: int, i0: int)
    requires
        t.len() <= usize::MAX,
        0 <= i0 <= p0 < p <= t.len(),
        i0 <= i,
        i - i0 <= p - p0,
        consecutive(completion_order(left), i0, i),
    ensures
        numbered_tail(t, p0, i0, equality_tail(t, p, i, left)),
    decreases t.len() - p, 16int,
{
    if matches_any(t, p, equality_ops()) {
        lemma_comparison_at(t, p + 1, i);
        match comparison_at(t, p + 1, i) {
            Ok((right, q, j)) => {
                lemma_consecutive_concat(completion_order(left), completion_order(right), i0, i, j);
                lemma_consecutive_node(completion_order(left) + completion_order(right), i0, j);
                let e = Expr::Binary {
                    left: Box::new(left),
                    operator: t[p],
                    right: Box::new(right),
                    id: j as usize,
                };
                assert(completion_order(e) == completion_order(left) + completion_order(right)
                    + seq![j as usize]);
                lemma_equality_tail(t, q, j + 1, e, p0, i0);
            },
            Err(_) => {},
        }
    }
}

proof fn lemma_comparison_at(t: Seq<Token>, p: int, i: int)
    requires
        t.len() <= usize::MAX,
        0 <= i <= p,
    ensures
        numbered_from(t, p, i, comparison_at(t, p, i)),
    decreases t.len() - p, 15int,
{
    lemma_term_at(t, p, i);
    match term_at(t, p, i) {
        Ok((e, q, j)) => {
            lemma_comparison_tail(t, q, j, e, p, i);
        },
        Err(_) => {},
    }
}

proof fn lemma_comparison_tail(t: Seq<Token>, p: int, i: int, left: Expr, p0: int, i0: int)
    requires
        t.len() <= usize::MAX,
        0 <= i0 <= p0 < p <= t.len(),
        i0 <= i,
        i - i0 <= p - p0,
        consecutive(completion_order(left), i0, i),
    ensures
        numbered_tail(t, p0, i0, comparison_tail(t, p, i, left)),
    decreases t.len() - p, 14int,
{
    if matches_any(t, p, comparison_ops()) {
        lemma_term_at(t, p + 1, i);
        match term_at(t, p + 1, i) {
            Ok((right, q, j)) => {
                lemma_consecutive_concat(completion_order(left), completion_order(right), i0, i, j);
                lemma_consecutive_node(completion_order(left) + completion_order(right), i0, j);
                let e = Expr::Binary {
                    left: Box::new(left),
                    operator: t[p],
                    right: Box::new(right),
                    id: j as usize,
                };
                assert(completion_order(e) == completion_order(left) + completion_order(right)
                    + seq![j as usize]);
                lemma_comparison_tail(t, q, j + 1, e, p0, i0);
            },
            Err(_) => {},
        }
    }
}

proof fn lemma_term_at(t: Seq<Token>, p: int, i: int)
    requires
        t.len() <= usize::MAX,
        0 <= i <= p,
    ensures
        numbered_from(t, p, i, term_at(t, p, i)),
    decreases t.len() - p, 13int,
{
    lemma_factor_at(t, p, i);
    match factor_at(t, p, i) {
        Ok((e, q, j)) => {
            lemma_term_tail(t, q, j, e, p, i);
        },
        Err(_) => {},
    }
}

proof fn lemma_term_tail(t: Seq<Token>, p: int, i: int, left: Expr, p0: int, i0: int)
    requires
        t.len() <= usize::MAX,
        0 <= i0 <= p0 < p <= t.len(),
        i0 <= i,
        i - i0 <= p - p0,
        consecutive(completion_order(left), i0, i),
    ensures
        numbered_tail(t, p0, i0, term_tail(t, p, i, left)),
    decreases t.len() - p, 12int,
{
    if matches_any(t, p, term_ops()) {
        lemma_factor_at(t, p + 1, i);
        match factor_at(t, p + 1, i) {
            Ok((right, q, j)) => {
                lemma_consecutive_concat(completion_order(left), completion_order(right), i0, i, j);
                lemma_consecutive_node(completion_order(left) + completion_order(right), i0, j);
                let e = Expr::Binary {
                    left: Box::new(left),
                    operator: t[p],
                    right: Box::new(right),
                    id: j as usize,
                };
                assert(completion_order(e) == completion_order(left) + completion_order(right)
                    + seq![j as usize]);
                lemma_term_tail(t, q, j + 1, e, p0, i0);
            },
            Err(_) => {},
        }
    }
}

proof fn lemma_factor_at(t: Seq<Token>, p: int, i: int)
    requires
        t.len() <= usize::MAX,
        0 <= i <= p,
    ensures
        numbered_from(t, p, i, factor_at(t, p, i)),
    decreases t.len() - p, 11int,
{
    lemma_unary_at(t, p, i);
    match unary_at(t, p, i) {
        Ok((e, q, j)) => {
            lemma_factor_tail(t, q, j, e, p, i);
        },
        Err(_) => {},
    }
}

proof fn lemma_factor_tail(t: Seq<Token>, p: int, i: int, left: Expr, p0: int, i0: int)
    requires
        t.len() <= usize::MAX,
        0 <= i0 <= p0 < p <= t.len(),
        i0 <= i,
        i - i0 <= p - p0,
        consecutive(completion_order(left), i0, i),
    ensures
        numbered_tail(t, p0, i0, factor_tail(t, p, i, left)),
    decreases t.len() - p, 10int,
{
    if matches_any(t, p, factor_ops()) {
        lemma_unary_at(t, p + 1, i);
        match unary_at(t, p + 1, i) {
            Ok((right, q, j)) => {
                lemma_consecutive_concat(completion_order(left), completion_order(right), i0, i, j);
                lemma_consecutive_node(completion_order(left) + completion_order(right), i0, j);
                let e = Expr::Binary {
                    left: Box::new(left),
                    operator: t[p],
                    right: Box::new(right),
                    id: j as usize,
                };
                assert(completion_order(e) == completion_order(left) + completion_order(right)
                    + seq![j as usize]);
                lemma_factor_tail(t, q, j + 1, e, p0, i0);
            },
            Err(_) => {},
        }
    }
}

proof fn lemma_unary_at(t: Seq<Token>, p: int, i: int)
    requires
        t.len() <= usize::MAX,
        0 <= i <= p,
    ensures
        numbered_from(t, p, i, unary_at(t, p, i)),
    decreases t.len() - p, 9int,
{
    if matches_any(t, p, unary_ops()) {
        lemma_unary_at(t, p + 1, i);
        match unary_at(t, p + 1, i) {
            Ok((right, q, j)) => {
                lemma_consecutive_node(completion_order(right), i, j);
            },
            Err(_) => {},
        }
    } else {
        lemma_primary_at(t, p, i);
    }
}

proof fn lemma_primary_at(t: Seq<Token>, p: int, i: int)
    requires
        t.len() <= usize::MAX,
        0 <= i <= p,
    ensures
        numbered_from(t, p, i, primary_at(t, p, i)),
    decreases t.len() - p, 8int,
{
    if check(t, p, TokenType::False) || check(t, p, TokenType::True) || check(t, p, TokenType::Nil)
        || check(t, p, TokenType::Number) || check(t, p, TokenType::String) {
        assert(consecutive(seq![i as usize], i, i + 1));
    } else if check(t, p, TokenType::LeftParen) {
        lemma_expression_at(t, p + 1, i);
        match expression_at(t, p + 1, i) {
            Ok((e, q, j)) => {
                lemma_consecutive_node(completion_order(e), i, j);
            },
            Err(_) => {},
        }
    }
}

/// Law: a successful parse numbers the nodes it builds consecutively from the parser's
/// next id, each node after its parts, so that no two nodes share an id; it reads at
/// least one token and builds no more nodes than it reads tokens.
pub proof fn law_parse_numbering(t: Seq<Token>, p: int, i: int)
    requires
        t.len() <= usize::MAX,
        0 <= i <= p,
    ensures
        numbered_from(t, p, i, expression_at(t, p, i)),
{
    lemma_expression_at(t, p, i);
}

/// Some token at or after `p` ends the input.
pub open spec fn has_eof_from(t: Seq<Token>, p: int) -> bool {
    exists|k: int| p <= k < t.len() && #[trigger] t[k].token_type == TokenType::Eof
}

/// Every number and string token carries its value.
pub open spec fn literals_present(t: Seq<Token>) -> bool {
    forall|k: int|
        0 <= k < t.len() && (t[k].token_type == TokenType::Number || t[k].token_type
            == TokenType::String) ==> (#[trigger] t[k].literal) is Some
}

/// What a parse of `t` from `p`, numbering from `id`, gives back as the exec functions
/// do: `r` is the expression or the error at the offending token; on success the parser
/// stands at `q` with `i` as its next id, and on failure it stands at the offending token.
pub open spec fn parse_outcome(
    t: Seq<Token>,
    s: Parsed,
    r: Result<Expr, ParseError>,
    q: int,
    i: int,
) -> bool {
    match s {
        Ok((e, q0, i0)) => r == Ok::<Expr, ParseError>(e) && q == q0 && i == i0,
        Err((q0, m)) => r matches Err(pe) && pe.token == t[q0] && pe.message@ == m && q == q0,
    }
}

/// Whether `tokens` can be parsed: an end-of-input token is among them, and every
/// number and string token carries its value.
pub fn tokens_well_formed(tokens: &Vec<Token>) -> (r: bool)
    ensures
        r == (has_eof_from(tokens@, 0) && literals_present(tokens@)),
{
    let mut eof = false;
    let mut i: usize = 0;
    while i < tokens.len()
        invariant
            i <= tokens@.len(),
            eof == exists|k: int| 0 <= k < i && #[trigger] tokens@[k].token_type == TokenType::Eof,
            forall|k: int|
                0 <= k < i && (tokens@[k].token_type == TokenType::Number || tokens@[k].token_type
                    == TokenType::String) ==> (#[trigger] tokens@[k].literal) is Some,
        decreases tokens@.len() - i,
    {
        let ty = tokens[i].token_type();
        if (ty == TokenType::Number || ty == TokenType::String) && tokens[i].literal().is_none() {
            return false;
        }
        if ty == TokenType::Eof {
            eof = true;
        }
        i = i + 1;
    }
    eof
}

/// A recursive descent parser for expressions over a list of tokens.
pub struct Parser {
    tokens: Vec<Token>,
    current: usize,
    next_id: usize,
}

impl Parser {
    /// The tokens being parsed.
    pub closed spec fn tokens(&self) -> Seq<Token> {
        self.tokens@
    }

    /// The position of the next token to read.
    pub closed spec fn position(&self) -> int {
        self.current as int
    }

    /// The id the next expression node built will get.
    pub closed spec fn next_id(&self) -> int {
        self.next_id as int
    }

    /// The parser holds the very tokens that `other` holds.
    pub closed spec fn same_tokens(&self, other: Parser) -> bool {
        self.tokens == other.tokens
    }

    /// The parser can move on: an end-of-input token lies ahead, and fewer nodes were
    /// built than tokens read.
    pub closed spec fn can_read(&self) -> bool {
        &&& self.current < self.tokens@.len()
        &&& has_eof_from(self.tokens@, self.current as int)
        &&& self.next_id <= self.current
    }

    /// The parser can parse on: it can move on, and number and string tokens carry their
    /// values.
    pub closed spec fn wf(&self) -> bool {
        &&& self.can_read()
        &&& literals_present(self.tokens@)
    }

    pub fn new(tokens: Vec<Token>) -> (p: Parser)
        ensures
            p.tokens() == tokens@,
            p.position() == 0,
            p.next_id() == 0,
            p.can_read() == has_eof_from(tokens@, 0),
            p.wf() == (has_eof_from(tokens@, 0) && literals_present(tokens@)),
    {
        Parser { tokens, current: 0, next_id: 0 }
    }

    fn peek(&self) -> (r: &Token)
        requires
            self.current < self.tokens@.len(),
        ensures
            *r == self.tokens@[self.current as int],
    {
        &self.tokens[self.current]
    }

    fn previous(&self) -> (r: &Token)
        requires
            0 < self.current <= self.tokens@.len(),
        ensures
            *r == self.tokens@[self.current - 1],
    {
        &self.tokens[self.current - 1]
    }

    fn is_at_end(&self) -> (r: bool)
        requires
            self.current < self.tokens@.len(),
        ensures
            r == at_end(self.tokens@, self.current as int),
    {
        self.peek().token_type() == TokenType::Eof
    }

    fn check(&self, token_type: &TokenType) -> (r: bool)
        requires
            self.current < self.tokens@.len(),
        ensures
            r == check(self.tokens@, self.current as int, *token_type),
    {
        if self.is_at_end() {
            return false;
        }
        self.peek().token_type() == *token_type
    }

    /// Steps over the current token, unless it ends the input, and gives the token
    /// stepped over (at the end, the one before it).
    pub fn advance(&mut self) -> (r: &Token)
        requires
            old(self).can_read(),
            old(self).position() > 0 || !at_end(old(self).tokens(), old(self).position()),
        ensures
            final(self).can_read(),
            final(self).same_tokens(*old(self)),
            final(self).tokens() == old(self).tokens(),
            final(self).next_id() == old(self).next_id(),
            final(self).position() == if at_end(old(self).tokens(), old(self).position()) {
                old(self).position()
            } else {
                old(self).position() + 1
            },
            *r == old(self).tokens()[final(self).position() - 1],
    {
        if !self.is_at_end() {
            let n = self.tokens.len();
            proof {
                let t = self.tokens@;
                let k = choose|k: int| self.current <= k < t.len() && #[trigger] t[k].token_type == TokenType::Eof;
                assert(k != self.current);
                assert(self.current + 1 <= k);
                assert(self.current + 1 < n);
                assert(has_eof_from(t, self.current + 1));
            }
            self.current = self.current + 1;
        }
        self.previous()
    }

    fn match_token(&mut self, types: &[TokenType]) -> (r: bool)
        requires
            old(self).wf(),
        ensures
            final(self).wf(),
            final(self).tokens == old(self).tokens,
            final(self).next_id == old(self).next_id,
            r == matches_any(old(self).tokens@, old(self).current as int, types@),
            final(self).current == if r {
                old(self).current + 1
            } else {
                old(self).current as int
            },
    {
        let mut i: usize = 0;
        while i < types.len()
            invariant
                *self == *old(self),
                self.wf(),
                i <= types@.len(),
                forall|j: int| 0 <= j < i ==> !check(self.tokens@, self.current as int, types@[j]),
            decreases types@.len() - i,
        {
            if self.check(&types[i]) {
                self.advance();
                return true;
            }
            i = i + 1;
        }
        false
    }

    /// The parser read on from `a` to `b`: same tokens, no step back, and no more
    /// nodes built than tokens read.
    pub closed spec fn progressed(a: Parser, b: Parser) -> bool {
        &&& b.wf()
        &&& b.tokens == a.tokens
        &&& a.current <= b.current
        &&& b.current - b.next_id >= a.current - a.next_id
    }

    fn take_id(&mut self) -> (i: usize)
        requires
            old(self).wf(),
            old(self).next_id < old(self).current,
        ensures
            i == old(self).next_id,
            final(self).next_id == old(self).next_id + 1,
            final(self).tokens == old(self).tokens,
            final(self).current == old(self).current,
            final(self).wf(),
    {
        let i = self.next_id;
        self.next_id = self.next_id + 1;
        i
    }

    fn error(&self, token: &Token, message: &str) -> (e: ParseError)
        ensures
            e.token == *token,
            e.message@ == message@,
    {
        ParseError { token: token.duplicate(), message: String::from_str(message) }
    }

    fn consume(&mut self, token_type: TokenType, message: &str) -> (r: Result<&Token, ParseError>)
        requires
            old(self).wf(),
        ensures
            final(self).wf(),
            final(self).tokens == old(self).tokens,
            final(self).next_id == old(self).next_id,
            check(old(self).tokens@, old(self).current as int, token_type) ==> (r matches Ok(tok)
                && *tok == old(self).tokens@[old(self).current as int]
                && final(self).current == old(self).current + 1),
            !check(old(self).tokens@, old(self).current as int, token_type) ==> (r matches Err(e)
                && e.token == old(self).tokens@[old(self).current as int] && e.message@ == message@
                && final(self).current == old(self).current),
    {
        if self.check(&token_type) {
            return Ok(self.advance());
        }
        Err(self.error(self.peek(), message))
    }

    /// Parses one expression from the current token on. On success the parser stands
    /// after it; on failure the error names the offending token, and the parser stands
    /// at that token.
    pub fn parse(&mut self) -> (r: Result<Expr, ParseError>)
        requires
            old(self).wf(),
        ensures
            final(self).wf(),
            final(self).tokens() == old(self).tokens(),
            0 <= final(self).position() < final(self).tokens().len(),
            parse_outcome(
                old(self).tokens(),
                expression_at(old(self).tokens(), old(self).position(), old(self).next_id()),
                r,
                final(self).position(),
                final(self).next_id(),
            ),
    {
        self.expression()
    }

    fn expression(&mut self) -> (r: Result<Expr, ParseError>)
        requires
            old(self).wf(),
        ensures
            Parser::progressed(*old(self), *final(self)),
            parse_outcome(
                old(self).tokens@,
                expression_at(old(self).tokens@, old(self).current as int, old(self).next_id as int),
                r,
                final(self).current as int,
                final(self).next_id as int,
            ),
        decreases old(self).tokens@.len() - old(self).current, 21int,
    {
        self.comma()
    }

    #[verifier::spinoff_prover]
    #[verifier::rlimit(50)]
    fn comma(&mut self) -> (r: Result<Expr, ParseError>)
        requires
            old(self).wf(),
        ensures
            Parser::progressed(*old(self), *final(self)),
            parse_outcome(
                old(self).tokens@,
                comma_at(old(self).tokens@, old(self).current as int, old(self).next_id as int),
                r,
                final(self).current as int,
                final(self).next_id as int,
            ),
        decreases old(self).tokens@.len() - old(self).current, 20int,
    {
        let ghost start = *self;
        let ghost t = self.tokens@;
        let ghost p0 = self.current as int;
        let ghost i0 = self.next_id as int;
        let mut expr = match self.ternary() {
            Ok(e) => e,
            Err(e) => return Err(e),
        };
        loop
            invariant
                start == *old(self),
                t == start.tokens@,
                p0 == start.current,
                i0 == start.next_id,
                Parser::progressed(start, *self),
                comma_at(t, p0, i0) == comma_tail(t, self.current as int, self.next_id as int, expr),
            ensures
                Parser::progressed(start, *self),
                comma_at(t, p0, i0) == Ok::<(Expr, int, int), (int, Seq<char>)>(
                    (expr, self.current as int, self.next_id as int),
                ),
            decreases t.len() - self.current,
        {
            let types: &[TokenType] = &[TokenType::Comma];
            assert(types@ == seq![TokenType::Comma]);
            if !self.match_token(types) {
                break;
            }
            let operator = self.previous().duplicate();
            let right = match self.ternary() {
                Ok(e) => e,
                Err(e) => return Err(e),
            };
            let id = self.take_id();
            expr = Expr::Binary { left: Box::new(expr), operator, right: Box::new(right), id };
        }
        Ok(expr)
    }

    #[verifier::spinoff_prover]
    #[verifier::rlimit(50)]
    fn ternary(&mut self) -> (r: Result<Expr, ParseError>)
        requires
            old(self).wf(),
        ensures
            Parser::progressed(*old(self), *final(self)),
            parse_outcome(
                old(self).tokens@,
                ternary_at(old(self).tokens@, old(self).current as int, old(self).next_id as int),
                r,
                final(self).current as int,
                final(self).next_id as int,
            ),
        decreases old(self).tokens@.len() - old(self).current, 18int,
    {
        let mut expr = match self.equality() {
            Ok(e) => e,
            Err(e) => return Err(e),
        };
        let types: &[TokenType] = &[TokenType::Question];
        assert(types@ == seq![TokenType::Question]);
        if self.match_token(types) {
            let then_branch = match self.expression() {
                Ok(e) => e,
                Err(e) => return Err(e),
            };
            match self.consume(TokenType::Colon, "Expect ':' after then branch of ternary expression.") {
                Ok(_) => {},
                Err(e) => return Err(e),
            }
            let else_branch = match self.ternary() {
                Ok(e) => e,
                Err(e) => return Err(e),
            };
            let id = self.take_id();
            expr = Expr::Ternary {
                condition: Box::new(expr),
                then_branch: Box::new(then_branch),
                else_branch: Box::new(else_branch),
                id,
            };
        }
        Ok(expr)
    }

    #[verifier::spinoff_prover]
    #[verifier::rlimit(50)]
    fn equality(&mut self) -> (r: Result<Expr, ParseError>)
        requires
            old(self).wf(),
        ensures
            Parser::progressed(*old(self), *final(self)),
            parse_outcome(
                old(self).tokens@,
                equality_at(old(self).tokens@, old(self).current as int, old(self).next_id as int),
                r,
                final(self).current as int,
                final(self).next_id as int,
            ),
        decreases old(self).tokens@.len() - old(self).current, 17int,
    {
        let ghost start = *self;
        let ghost t = self.tokens@;
        let ghost p0 = self.current as int;
        let ghost i0 = self.next_id as int;
        let mut expr = match self.comparison() {
            Ok(e) => e,
            Err(e) => return Err(e),
        };
        loop
            invariant
                start == *old(self),
                t == start.tokens@,
                p0 == start.current,
                i0 == start.next_id,
                Parser::progressed(start, *self),
                equality_at(t, p0, i0) == equality_tail(t, self.current as int, self.next_id as int, expr),
            ensures
                Parser::progressed(start, *self),
                equality_at(t, p0, i0) == Ok::<(Expr, int, int), (int, Seq<char>)>(
                    (expr, self.current as int, self.next_id as int),
                ),
            decreases t.len() - self.current,
        {
            let types: &[TokenType] = &[TokenType::BangEqual, TokenType::EqualEqual];
            assert(types@ == equality_ops());
            if !self.match_token(types) {
                break;
            }
            let operator = self.previous().duplicate();
            let right = match self.comparison() {
                Ok(e) => e,
                Err(e) => return Err(e),
            };
            let id = self.take_id();
            expr = Expr::Binary { left: Box::new(expr), operator, right: Box::new(right), id };
        }
        Ok(expr)
    }

    #[verifier::spinoff_prover]
    #[verifier::rlimit(50)]
    fn comparison(&mut self) -> (r: Result<Expr, ParseError>)
        requires
            old(self).wf(),
        ensures
            Parser::progressed(*old(self), *final(self)),
            parse_outcome(
                old(self).tokens@,
                comparison_at(old(self).tokens@, old(self).current as int, old(self).next_id as int),
                r,
                final(self).current as int,
                final(self).next_id as int,
            ),
        decreases old(self).tokens@.len() - old(self).current, 15int,
    {
        let ghost start = *self;
        let ghost t = self.tokens@;
        let ghost p0 = self.current as int;
        let ghost i0 = self.next_id as int;
        let mut expr = match self.term() {
            Ok(e) => e,
            Err(e) => return Err(e),
        };
        loop
            invariant
                start == *old(self),
                t == start.tokens@,
                p0 == start.current,
                i0 == start.next_id,
                Parser::progressed(start, *self),
                comparison_at(t, p0, i0) == comparison_tail(t, self.current as int, self.next_id as int, expr),
            ensures
                Parser::progressed(start, *self),
                comparison_at(t, p0, i0) == Ok::<(Expr, int, int), (int, Seq<char>)>(
                    (expr, self.current as int, self.next_id as int),
                ),
            decreases t.len() - self.current,
        {
            let types: &[TokenType] = &[TokenType::Greater, TokenType::GreaterEqual, TokenType::Less, TokenType::LessEqual];
            assert(types@ == comparison_ops());
            if !self.match_token(types) {
                break;
            }
            let operator = self.previous().duplicate();
            let right = match self.term() {
                Ok(e) => e,
                Err(e) => return Err(e),
            };
            let id = self.take_id();
            expr = Expr::Binary { left: Box::new(expr), operator, right: Box::new(right), id };
        }
        Ok(expr)
    }

    #[verifier::spinoff_prover]
    #[verifier::rlimit(50)]
    fn term(&mut self) -> (r: Result<Expr, ParseError>)
        requires
            old(self).wf(),
        ensures
            Parser::progressed(*old(self), *final(self)),
            parse_outcome(
                old(self).tokens@,
                term_at(old(self).tokens@, old(self).current as int, old(self).next_id as int),
                r,
                final(self).current as int,
                final(self).next_id as int,
            ),
        decreases old(self).tokens@.len() - old(self).current, 13int,
    {
        let ghost start = *self;
        let ghost t = self.tokens@;
        let ghost p0 = self.current as int;
        let ghost i0 = self.next_id as int;
        let mut expr = match self.factor() {
            Ok(e) => e,
            Err(e) => return Err(e),
        };
        loop
            invariant
                start == *old(self),
                t == start.tokens@,
                p0 == start.current,
                i0 == start.next_id,
                Parser::progressed(start, *self),
                term_at(t, p0, i0) == term_tail(t, self.current as int, self.next_id as int, expr),
            ensures
                Parser::progressed(start, *self),
                term_at(t, p0, i0) == Ok::<(Expr, int, int), (int, Seq<char>)>(
                    (expr, self.current as int, self.next_id as int),
                ),
            decreases t.len() - self.current,
        {
            let types: &[TokenType] = &[TokenType::Minus, TokenType::Plus];
            assert(types@ == term_ops());
            if !self.match_token(types) {
                break;
            }
            let operator = self.previous().duplicate();
            let right = match self.factor() {
                Ok(e) => e,
                Err(e) => return Err(e),
            };
            let id = self.take_id();
            expr = Expr::Binary { left: Box::new(expr), operator, right: Box::new(right), id };
        }
        Ok(expr)
    }

    #[verifier::spinoff_prover]
    #[verifier::rlimit(50)]
    fn factor(&mut self) -> (r: Result<Expr, ParseError>)
        requires
            old(self).wf(),
        ensures
            Parser::progressed(*old(self), *final(self)),
            parse_outcome(
                old(self).tokens@,
                factor_at(old(self).tokens@, old(self).current as int, old(self).next_id as int),
                r,
                final(self).current as int,
                final(self).next_id as int,
            ),
        decreases old(self).tokens@.len() - old(self).current, 11int,
    {
        let ghost start = *self;
        let ghost t = self.tokens@;
        let ghost p0 = self.current as int;
        let ghost i0 = self.next_id as int;
        let mut expr = match self.unary() {
            Ok(e) => e,
            Err(e) => return Err(e),
        };
        loop
            invariant
                start == *old(self),
                t == start.tokens@,
                p0 == start.current,
                i0 == start.next_id,
                Parser::progressed(start, *self),
                factor_at(t, p0, i0) == factor_tail(t, self.current as int, self.next_id as int, expr),
            ensures
                Parser::progressed(start, *self),
                factor_at(t, p0, i0) == Ok::<(Expr, int, int), (int, Seq<char>)>(
                    (expr, self.current as int, self.next_id as int),
                ),
            decreases t.len() - self.current,
        {
            let types: &[TokenType] = &[TokenType::Slash, TokenType::Star];
            assert(types@ == factor_ops());
            if !self.match_token(types) {
                break;
            }
            let operator = self.previous().duplicate();
            let right = match self.unary() {
                Ok(e) => e,
                Err(e) => return Err(e),
            };
            let id = self.take_id();
            expr = Expr::Binary { left: Box::new(expr), operator, right: Box::new(right), id };
        }
        Ok(expr)
    }

    #[verifier::spinoff_prover]
    #[verifier::rlimit(50)]
    fn unary(&mut self) -> (r: Result<Expr, ParseError>)
        requires
            old(self).wf(),
        ensures
            Parser::progressed(*old(self), *final(self)),
            parse_outcome(
                old(self).tokens@,
                unary_at(old(self).tokens@, old(self).current as int, old(self).next_id as int),
                r,
                final(self).current as int,
                final(self).next_id as int,
            ),
        decreases old(self).tokens@.len() - old(self).current, 9int,
    {
        let types: &[TokenType] = &[TokenType::Bang, TokenType::Minus];
        assert(types@ == unary_ops());
        if self.match_token(types) {
            let operator = self.previous().duplicate();
            let right = match self.unary() {
                Ok(e) => e,
                Err(e) => return Err(e),
            };
            let id = self.take_id();
            return Ok(Expr::Unary { operator, right: Box::new(right), id });
        }
        self.primary()
    }

    #[verifier::spinoff_prover]
    #[verifier::rlimit(50)]
    fn primary(&mut self) -> (r: Result<Expr, ParseError>)
        requires
            old(self).wf(),
        ensures
            Parser::progressed(*old(self), *final(self)),
            parse_outcome(
                old(self).tokens@,
                primary_at(old(self).tokens@, old(self).current as int, old(self).next_id as int),
                r,
                final(self).current as int,
                final(self).next_id as int,
            ),
        decreases old(self).tokens@.len() - old(self).current, 8int,
    {
        if self.match_token(&[TokenType::False]) {
            let id = self.take_id();
            return Ok(Expr::Literal { value: Literal::Bool(false), id });
        }
        if self.match_token(&[TokenType::True]) {
            let id = self.take_id();
            return Ok(Expr::Literal { value: Literal::Bool(true), id });
        }
        if self.match_token(&[TokenType::Nil]) {
            let id = self.take_id();
            return Ok(Expr::Literal { value: Literal::Nil, id });
        }
        let types: &[TokenType] = &[TokenType::Number, TokenType::String];
        assert(types@ == seq![TokenType::Number, TokenType::String]);
        if self.match_token(types) {
            let literal = match self.previous().literal() {
                Some(lit) => lit.duplicate(),
                None => {
                    assert(false);
                    Literal::Nil
                },
            };
            let id = self.take_id();
            return Ok(Expr::Literal { value: literal, id });
        }
        if self.match_token(&[TokenType::LeftParen]) {
            let expr = match self.expression() {
                Ok(e) => e,
                Err(e) => return Err(e),
            };
            match self.consume(TokenType::RightParen, "Expect ')' after expression.") {
                Ok(_) => {},
                Err(e) => return Err(e),
            }
            let id = self.take_id();
            return Ok(Expr::Grouping { expression: Box::new(expr), id });
        }
        Err(self.error(self.peek(), "Expected expression."))
    }

    /// Error recovery: skips tokens until just after a `;`, or up to a token that
    /// begins a statement, or up to the end of input.
    pub fn synchronize(&mut self)
        requires
            old(self).can_read(),
            old(self).position() > 0 || !at_end(old(self).tokens(), old(self).position()),
        ensures
            final(self).can_read(),
            0 <= final(self).position() < final(self).tokens().len(),
            old(self).wf() ==> final(self).wf(),
            final(self).tokens() == old(self).tokens(),
            final(self).next_id() == old(self).next_id(),
            final(self).position() == synchronized(old(self).tokens(), old(self).position()),
    {
        let ghost t = self.tokens@;
        self.advance();
        while !self.is_at_end()
            invariant
                self.can_read(),
                t == old(self).tokens@,
                self.tokens@ == t,
                self.next_id == old(self).next_id,
                self.current >= 1,
                synchronized(t, old(self).current as int) == sync_scan(t, self.current as int),
            decreases t.len() - self.current,
        {
            if self.previous().token_type() == TokenType::Semicolon {
                return;
            }
            match self.peek().token_type() {
                TokenType::Class
                | TokenType::Fun
                | TokenType::Var
                | TokenType::For
                | TokenType::If
                | TokenType::While
                | TokenType::Print
                | TokenType::Return => return,
                _ => {},
            }
            self.advance();
        }
    }
}

} // verus!
