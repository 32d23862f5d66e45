//! Writing expressions out, for diagnostics.

use vstd::prelude::*;
use vstd::string::*;
use crate::expr::{Expr, Literal};

verus! {

/// How a literal is written.
pub open spec fn printed_literal(value: &Literal) -> Seq<char> {
    match value {
        Literal::Number(text) => "Number("@ + text@ + ")"@,
        Literal::Strang(text) => "Strang(\""@ + text@ + "\")"@,
        Literal::Bool(b) => if *b {
            "Bool(true)"@
        } else {
            "Bool(false)"@
        },
        Literal::Nil => "Nil"@,
    }
}

/// How an expression is written: operators stand between their operands, in
/// parentheses; what the printer has no form for is written as a remark.
pub open spec fn printed(expr: &Expr) -> Seq<char>
    decreases expr,
{
    match expr {
        Expr::Binary { left, right, operator } => "("@ + printed(left) + " "@ + operator.raw@ + " "@
            + printed(right) + ")"@,
        Expr::Logical { left, operator, right } => "()"@ + printed(left) + " "@ + operator.raw@
            + " "@ + printed(right) + ")"@,
        Expr::Grouping { expression } => "(group "@ + printed(expression) + ")"@,
        Expr::Literal { value } => printed_literal(value),
        Expr::Unary { operator, right } => "("@ + operator.raw@ + printed(right) + ")"@,
        Expr::Variable { name } => name.raw@,
        Expr::Assign { name, value } => name.raw@ + " = "@ + printed(value),
        _ => "haven't bothered to implement this pp yet"@,
    }
}

/// Writes expressions out, for diagnostics.
#[derive(Debug)]
pub struct AstPrinter {}

impl AstPrinter {
    fn literal(value: &Literal) -> (r: String)
        ensures
            r@ == printed_literal(value),
    {
        match value {
            Literal::Number(text) => {
                let mut r = String::from_str("Number(");
                r.append(text.as_str());
                r.append(")");
                r
            },
            Literal::Strang(text) => {
                let mut r = String::from_str("Strang(\"");
                r.append(text.as_str());
                r.append("\")");
                r
            },
            Literal::Bool(b) => if *b {
                String::from_str("Bool(true)")
            } else {
                String::from_str("Bool(false)")
            },
            Literal::Nil => String::from_str("Nil"),
        }
    }

    /// Writes the expression out.
    pub fn visit_expr(&mut self, expr: &Expr) -> (r: String)
        ensures
            r@ == printed(expr),
        decreases expr,
    {
        match expr {
            Expr::Binary { left, right, operator } => {
                let mut r = String::from_str("(");
                r.append(self.visit_expr(left).as_str());
                r.append(" ");
                r.append(operator.raw.as_str());
                r.append(" ");
                r.append(self.visit_expr(right).as_str());
                r.append(")");
                r
            },
            Expr::Logical { left, operator, right } => {
                let mut r = String::from_str("()");
                r.append(self.visit_expr(left).as_str());
                r.append(" ");
                r.append(operator.raw.as_str());
                r.append(" ");
                r.append(self.visit_expr(right).as_str());
                r.append(")");
                r
            },
            Expr::Grouping { expression } => {
                let mut r = String::from_str("(group ");
                r.append(self.visit_expr(expression).as_str());
                r.append(")");
                r
            },
            Expr::Literal { value } => Self::literal(value),
            Expr::Unary { operator, right } => {
                let mut r = String::from_str("(");
                r.append(operator.raw.as_str());
                r.append(self.visit_expr(right).as_str());
                r.append(")");
                r
            },
            Expr::Variable { name } => name.raw.clone(),
            Expr::Assign { name, value } => {
                let mut r = name.raw.clone();
                r.append(" = ");
                r.append(self.visit_expr(value).as_str());
                r
            },
            _ => String::from_str("haven't bothered to implement this pp yet"),
        }
    }
}

} // verus!
