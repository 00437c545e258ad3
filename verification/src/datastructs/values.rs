use vstd::prelude::*;
use super::literal::{Literal, Value};
use super::stmt::Stmt;
use super::token::Token;
use crate::evaluator::{Cursor, Evaluator, Outcome, Replies, invoke, step_of, texts_view};

pub use super::literal::FunctionType;

verus! {

/// A function as the contracts see it: its parameters, its body, and the index of the
/// scope it was declared in.
pub struct Fun {
    pub params: Seq<Token>,
    pub body: Seq<Stmt>,
    pub closure: usize,
}

/// A function: its parameters and body, as written in the program, and the scope it
/// was declared in, by its index in the run's environment.
pub struct FunctionCallable<'a> {
    params: &'a Vec<Token>,
    body: &'a Vec<Stmt>,
    closure: usize,
}

impl<'a> View for FunctionCallable<'a> {
    type V = Fun;

    closed spec fn view(&self) -> Fun {
        Fun { params: self.params@, body: self.body@, closure: self.closure }
    }
}

impl<'a> FunctionCallable<'a> {
    pub fn new(params: &'a Vec<Token>, body: &'a Vec<Stmt>, closure: usize) -> (f: FunctionCallable<'a>)
        ensures
            f@ == (Fun { params: params@, body: body@, closure }),
    {
        FunctionCallable { params, body, closure }
    }

    /// The parameters.
    pub fn params(&self) -> (r: &'a Vec<Token>)
        ensures
            r@ == self@.params,
    {
        self.params
    }

    /// The body.
    pub fn body(&self) -> (r: &'a Vec<Stmt>)
        ensures
            r@ == self@.body,
    {
        self.body
    }

    /// The index of the scope the function was declared in.
    pub fn closure(&self) -> (r: usize)
        ensures
            r == self@.closure,
    {
        self.closure
    }

    /// A copy of this function, sharing its parameters and body.
    pub fn duplicate(&self) -> (r: FunctionCallable<'a>)
        ensures
            r == *self,
            r@ == self@,
    {
        FunctionCallable { params: self.params, body: self.body, closure: self.closure }
    }

    /// How a function is written.
    pub fn text(&self) -> (r: String)
        ensures
            r@ == "<fn>"@,
    {
        String::from_str("<fn>")
    }

    /// The number of parameters.
    pub fn arity(&self) -> (n: usize)
        ensures
            n == self@.params.len(),
    {
        self.params.len()
    }

    /// Calls the function: a new scope nested in the scope it was declared in binds each
    /// parameter to its argument, in order, and the body runs there. The call gives what
    /// a `return` gave, or `nil` when the body runs to its end.
    pub fn call(
        &self,
        evaluator: &mut Evaluator<'a>,
        arguments: &Vec<Literal>,
        replies: &Replies,
        cursor: &mut Cursor,
        output: &mut Vec<String>,
    ) -> (r: Outcome<Literal>)
        requires
            old(evaluator).wf(),
            self@.closure < old(evaluator).scope_count(),
            old(cursor).iterations <= replies.iterations,
        ensures
            final(evaluator).wf(),
            invoke(
                self@,
                arguments@.map_values(|l: Literal| l@),
                old(evaluator).state(*old(cursor), texts_view(old(output)@)),
                *replies,
            ) == (step_of(r), final(evaluator).state(*final(cursor), texts_view(final(output)@))),
    {
        proof {
            old(evaluator).lemma_state_parts(*old(cursor), texts_view(old(output)@));
        }
        evaluator.invoke(self, arguments, replies, cursor, output)
    }
}

} // verus!
