//! Statements.

use vstd::prelude::*;
use crate::common::Token;
use crate::expr::{Expr, Expression};

verus! {

/// A statement.
#[derive(Debug, PartialEq)]
pub enum Stmt {
    Block { statements: Box<Vec<Stmt>> },
    Expression { expression: Expr },
    If { condition: Expr, then_branch: Box<Stmt>, else_branch: Option<Box<Stmt>> },
    While { condition: Expr, then_branch: Box<Stmt>, finally_branch: Option<Box<Stmt>> },
    Print { expression: Expr },
    Var { name: Token, initializer: Option<Expr> },
    Function { name: Token, parameters: Vec<Token>, body: Box<Vec<Stmt>> },
    Class { name: Token, methods: Box<Vec<Stmt>> },
    Return { token: Token, return_value: Option<Expr> },
    Break { token: Token },
}

/// What a statement is: the tree, with sequences in place of vectors.
pub enum Statement {
    Block { statements: Seq<Statement> },
    Expression { expression: Expression },
    If { condition: Expression, then_branch: Box<Statement>, else_branch: Option<Box<Statement>> },
    While {
        condition: Expression,
        then_branch: Box<Statement>,
        finally_branch: Option<Box<Statement>>,
    },
    Print { expression: Expression },
    Var { name: Token, initializer: Option<Expression> },
    Function { name: Token, parameters: Seq<Token>, body: Seq<Statement> },
    Class { name: Token, methods: Seq<Statement> },
    Return { token: Token, return_value: Option<Expression> },
    Break { token: Token },
}

/// What the statements of a vector are.
pub open spec fn statements(stmts: Seq<Stmt>) -> Seq<Statement>
    decreases stmts,
{
    Seq::new(
        stmts.len(),
        |i: int|
            if 0 <= i < stmts.len() {
                statement_of(&stmts[i])
            } else {
                arbitrary()
            },
    )
}

/// What the node is.
pub open spec fn statement_of(node: &Stmt) -> Statement
    decreases node,
{
    match node {
        Stmt::Block { statements: inner } => Statement::Block { statements: statements(inner@) },
        Stmt::Expression { expression } => Statement::Expression { expression: expression@ },
        Stmt::If { condition, then_branch, else_branch } => Statement::If {
            condition: condition@,
            then_branch: Box::new(statement_of(then_branch)),
            else_branch: match else_branch {
                Some(other) => Some(Box::new(statement_of(other))),
                None => None,
            },
        },
        Stmt::While { condition, then_branch, finally_branch } => Statement::While {
            condition: condition@,
            then_branch: Box::new(statement_of(then_branch)),
            finally_branch: match finally_branch {
                Some(clause) => Some(Box::new(statement_of(clause))),
                None => None,
            },
        },
        Stmt::Print { expression } => Statement::Print { expression: expression@ },
        Stmt::Var { name, initializer } => Statement::Var {
            name: *name,
            initializer: match initializer {
                Some(value) => Some(value@),
                None => None,
            },
        },
        Stmt::Function { name, parameters, body } => Statement::Function {
            name: *name,
            parameters: parameters@,
            body: statements(body@),
        },
        Stmt::Class { name, methods } => Statement::Class {
            name: *name,
            methods: statements(methods@),
        },
        Stmt::Return { token, return_value } => Statement::Return {
            token: *token,
            return_value: match return_value {
                Some(value) => Some(value@),
                None => None,
            },
        },
        Stmt::Break { token } => Statement::Break { token: *token },
    }
}

impl View for Stmt {
    type V = Statement;

    open spec fn view(&self) -> Statement {
        statement_of(self)
    }
}

} // verus!
