use vstd::prelude::*;
use super::literal::Literal;
use super::token::Token;

verus! {

/// An expression of the language. Each node carries an `id`, unique within one parse.
#[derive(Debug)]
#[allow(inconsistent_fields)]
pub enum Expr {
    Assign { name: Token, value: Box<Expr>, id: usize },
    Binary { left: Box<Expr>, operator: Token, right: Box<Expr>, id: usize },
    Call { callee: Box<Expr>, paren: Token, arguments: Vec<Expr>, id: usize },
    Get { object: Box<Expr>, name: Token, id: usize },
    Grouping { expression: Box<Expr>, id: usize },
    Literal { value: Literal, id: usize },
    Logical { left: Box<Expr>, operator: Token, right: Box<Expr>, id: usize },
    SetField { object: Box<Expr>, name: Token, value: Box<Expr>, id: usize },
    Super { keyword: Token, method: Token, id: usize },
    This { keyword: Token, id: usize },
    Unary { operator: Token, right: Box<Expr>, id: usize },
    Ternary { condition: Box<Expr>, then_branch: Box<Expr>, else_branch: Box<Expr>, id: usize },
    Variable { name: Token, id: usize },
}

impl Expr {
    /// The id of the node at the root of this expression.
    pub open spec fn node_id(&self) -> usize {
        match self {
            Expr::Assign { id, .. } => *id,
            Expr::Binary { id, .. } => *id,
            Expr::Call { id, .. } => *id,
            Expr::Get { id, .. } => *id,
            Expr::Grouping { id, .. } => *id,
            Expr::Literal { id, .. } => *id,
            Expr::Logical { id, .. } => *id,
            Expr::SetField { id, .. } => *id,
            Expr::Super { id, .. } => *id,
            Expr::This { id, .. } => *id,
            Expr::Unary { id, .. } => *id,
            Expr::Ternary { id, .. } => *id,
            Expr::Variable { id, .. } => *id,
        }
    }

    /// The id of the node at the root of this expression.
    pub fn id(&self) -> (r: usize)
        ensures
            r == self.node_id(),
    {
        match self {
            Expr::Assign { id, .. }
            | Expr::Binary { id, .. }
            | Expr::Call { id, .. }
            | Expr::Get { id, .. }
            | Expr::Grouping { id, .. }
            | Expr::Literal { id, .. }
            | Expr::Logical { id, .. }
            | Expr::SetField { id, .. }
            | Expr::Super { id, .. }
            | Expr::This { id, .. }
            | Expr::Unary { id, .. }
            | Expr::Ternary { id, .. }
            | Expr::Variable { id, .. } => *id,
        }
    }
}

impl PartialEq for Expr {
    /// Two expressions are the same node when their ids are equal.
    fn eq(&self, other: &Self) -> (r: bool) {
        self.id() == other.id()
    }
}

impl vstd::std_specs::cmp::PartialEqSpecImpl for Expr {
    open spec fn obeys_eq_spec() -> bool {
        true
    }

    open spec fn eq_spec(&self, other: &Self) -> bool {
        self.node_id() == other.node_id()
    }
}

impl Eq for Expr {

}

} // verus!
