//! Expressions.

use vstd::prelude::*;
use crate::common::Token;

verus! {

/// A literal as the source wrote it. A number keeps its digits: they become a
/// number when the literal is evaluated.
#[derive(Debug, PartialEq)]
pub enum Literal {
    Number(String),
    Strang(String),
    Bool(bool),
    Nil,
}

impl Clone for Literal {
    fn clone(&self) -> (r: Self)
        ensures
            r == *self,
    {
        match self {
            Literal::Number(text) => Literal::Number(text.clone()),
            Literal::Strang(text) => Literal::Strang(text.clone()),
            Literal::Bool(b) => Literal::Bool(*b),
            Literal::Nil => Literal::Nil,
        }
    }
}

/// An expression.
#[derive(Debug, PartialEq)]
#[allow(inconsistent_fields)]
pub enum Expr {
    Assign { name: Token, value: Box<Expr> },
    Binary { left: Box<Expr>, right: Box<Expr>, operator: Token },
    Call { callee: Box<Expr>, paren: Token, arguments: Box<Vec<Expr>> },
    Get { object: Box<Expr>, name: Token },
    SetField { object: Box<Expr>, name: Token, value: Box<Expr> },
    Grouping { expression: Box<Expr> },
    Literal { value: Literal },
    Logical { left: Box<Expr>, operator: Token, right: Box<Expr> },
    Unary { operator: Token, right: Box<Expr> },
    Variable { name: Token },
}

/// What an expression is: the tree, with sequences in place of vectors.
#[allow(inconsistent_fields)]
pub enum Expression {
    Assign { name: Token, value: Box<Expression> },
    Binary { left: Box<Expression>, right: Box<Expression>, operator: Token },
    Call { callee: Box<Expression>, paren: Token, arguments: Seq<Expression> },
    Get { object: Box<Expression>, name: Token },
    SetField { object: Box<Expression>, name: Token, value: Box<Expression> },
    Grouping { expression: Box<Expression> },
    Literal { value: Literal },
    Logical { left: Box<Expression>, operator: Token, right: Box<Expression> },
    Unary { operator: Token, right: Box<Expression> },
    Variable { name: Token },
}

/// What the expressions of a vector are.
pub open spec fn expressions(exprs: Seq<Expr>) -> Seq<Expression>
    decreases exprs,
{
    Seq::new(
        exprs.len(),
        |i: int|
            if 0 <= i < exprs.len() {
                expression_of(&exprs[i])
            } else {
                arbitrary()
            },
    )
}

/// What the node is.
pub open spec fn expression_of(node: &Expr) -> Expression
    decreases node,
{
    match node {
        Expr::Assign { name, value } => Expression::Assign {
            name: *name,
            value: Box::new(expression_of(value)),
        },
        Expr::Binary { left, right, operator } => Expression::Binary {
            left: Box::new(expression_of(left)),
            right: Box::new(expression_of(right)),
            operator: *operator,
        },
        Expr::Call { callee, paren, arguments } => Expression::Call {
            callee: Box::new(expression_of(callee)),
            paren: *paren,
            arguments: expressions(arguments@),
        },
        Expr::Get { object, name } => Expression::Get {
            object: Box::new(expression_of(object)),
            name: *name,
        },
        Expr::SetField { object, name, value } => Expression::SetField {
            object: Box::new(expression_of(object)),
            name: *name,
            value: Box::new(expression_of(value)),
        },
        Expr::Grouping { expression } => Expression::Grouping {
            expression: Box::new(expression_of(expression)),
        },
        Expr::Literal { value } => Expression::Literal { value: *value },
        Expr::Logical { left, operator, right } => Expression::Logical {
            left: Box::new(expression_of(left)),
            operator: *operator,
            right: Box::new(expression_of(right)),
        },
        Expr::Unary { operator, right } => Expression::Unary {
            operator: *operator,
            right: Box::new(expression_of(right)),
        },
        Expr::Variable { name } => Expression::Variable { name: *name },
    }
}

impl View for Expr {
    type V = Expression;

    open spec fn view(&self) -> Expression {
        expression_of(self)
    }
}

} // verus!
