use rlox::common::Token;
use rlox::expr::Expr;
use rlox::interpreter::Interpreter;
use rlox::lexer::Lexer;
use rlox::parser::Parser;
use rlox::resolver::{Resolver, ResolverError};
use rlox::stmt::Stmt;

fn parse(source: &str) -> Vec<Stmt> {
    let (tokens, errors) = Lexer::new(source).collect_tokens();
    assert!(errors.is_empty(), "{:?}", errors);
    let mut parser = Parser::new(tokens);
    let statements = parser.parse();
    assert!(!parser.had_error(), "{:?}", parser.errors());
    statements
}

fn messages(source: &str) -> Vec<String> {
    let statements = parse(source);
    let mut interpreter = Interpreter::new();
    let mut resolver = Resolver::new();
    resolver.resolve(&statements, &mut interpreter);
    assert_eq!(resolver.had_error(), !resolver.errors().is_empty());
    resolver.errors().iter().map(|e| e.message.clone()).collect()
}

/// The references to variables in the program, in the order of the source.
fn references(statements: &[Stmt]) -> Vec<Token> {
    fn of_expr(expr: &Expr, found: &mut Vec<Token>) {
        match expr {
            Expr::Variable { name } => found.push(name.clone()),
            Expr::Assign { name, value } => {
                found.push(name.clone());
                of_expr(value, found);
            }
            Expr::Binary { left, right, .. } | Expr::Logical { left, right, .. } => {
                of_expr(left, found);
                of_expr(right, found);
            }
            Expr::Call { callee, arguments, .. } => {
                of_expr(callee, found);
                for argument in arguments.iter() {
                    of_expr(argument, found);
                }
            }
            Expr::Get { object, .. } => of_expr(object, found),
            Expr::SetField { object, value, .. } => {
                of_expr(object, found);
                of_expr(value, found);
            }
            Expr::Grouping { expression } => of_expr(expression, found),
            Expr::Unary { right, .. } => of_expr(right, found),
            Expr::Literal { .. } => {}
        }
    }
    fn of_stmt(stmt: &Stmt, found: &mut Vec<Token>) {
        match stmt {
            Stmt::Block { statements } => statements.iter().for_each(|s| of_stmt(s, found)),
            Stmt::Expression { expression } | Stmt::Print { expression } => of_expr(expression, found),
            Stmt::If { condition, then_branch, else_branch } => {
                of_expr(condition, found);
                of_stmt(then_branch, found);
                if let Some(other) = else_branch {
                    of_stmt(other, found);
                }
            }
            Stmt::While { condition, then_branch, finally_branch } => {
                of_expr(condition, found);
                of_stmt(then_branch, found);
                if let Some(clause) = finally_branch {
                    of_stmt(clause, found);
                }
            }
            Stmt::Var { initializer, .. } => {
                if let Some(value) = initializer {
                    of_expr(value, found);
                }
            }
            Stmt::Function { body, .. } => body.iter().for_each(|s| of_stmt(s, found)),
            Stmt::Class { .. } | Stmt::Break { .. } => {}
            Stmt::Return { return_value, .. } => {
                if let Some(value) = return_value {
                    of_expr(value, found);
                }
            }
        }
    }
    let mut found = Vec::new();
    statements.iter().for_each(|s| of_stmt(s, &mut found));
    found.sort_by_key(|t| (t.line, t.column));
    found
}

/// The distance found for each reference to a variable, in the order of the source.
fn distances(source: &str) -> Vec<(String, Option<usize>)> {
    let statements = parse(source);
    let mut interpreter = Interpreter::new();
    let mut resolver = Resolver::new();
    resolver.resolve(&statements, &mut interpreter);
    assert!(!resolver.had_error(), "{:?}", resolver.errors());
    references(&statements)
        .iter()
        .map(|t| (t.raw.clone(), interpreter.distance(t)))
        .collect()
}

fn found(list: &[(&str, Option<usize>)]) -> Vec<(String, Option<usize>)> {
    list.iter().map(|(name, d)| (name.to_string(), *d)).collect()
}

#[test]
fn a_variable_in_its_own_initializer_is_rejected() {
    assert_eq!(messages("var a = a;"), vec!["Cannot use a variable in it's own initializer"]);
    assert_eq!(messages("{ var a = a; }"), vec!["Cannot use a variable in it's own initializer"]);
    assert_eq!(messages("var a = 1; { var a = a + 1; }"), vec!["Cannot use a variable in it's own initializer"]);
    assert_eq!(messages("funct f() { var b = 1 + b; }"), vec!["Cannot use a variable in it's own initializer"]);
    assert_eq!(messages("var a = 1; var b = a; { var c = b; var d = c; }"), Vec::<String>::new());
    assert_eq!(messages("var a = 1; a = a + 1; var b = a;"), Vec::<String>::new());
}

#[test]
fn the_error_names_the_reference() {
    let statements = parse("var a = 1 + a;");
    let mut interpreter = Interpreter::new();
    let mut resolver = Resolver::new();
    resolver.resolve(&statements, &mut interpreter);
    let errors: &Vec<ResolverError> = resolver.errors();
    assert_eq!(errors.len(), 1);
    assert_eq!((errors[0].token.raw.as_str(), errors[0].token.line, errors[0].token.column), ("a", 1, 14));
}

#[test]
fn a_name_is_declared_once_in_a_scope() {
    assert_eq!(messages("{ var a; var a; }"), vec!["Already a variable with this name in scope"]);
    assert_eq!(messages("funct f(a, a) { }"), vec!["Already a variable with this name in scope"]);
    assert_eq!(messages("funct f(a) { var a; }"), vec!["Already a variable with this name in scope"]);
    assert_eq!(messages("{ funct f() {} class f {} }"), vec!["Already a variable with this name in scope"]);
    assert_eq!(messages("var a; var a; funct a() {}"), Vec::<String>::new());
    assert_eq!(messages("{ var a; { var a; } }"), Vec::<String>::new());
}

#[test]
fn break_belongs_in_a_loop() {
    assert_eq!(messages("break;"), vec!["Can only break from inside a loop."]);
    assert_eq!(messages("funct f() { break; }"), vec!["Can only break from inside a loop."]);
    assert_eq!(messages("while (true) { funct f() { break; } }"), vec!["Can only break from inside a loop."]);
    assert_eq!(messages("while (true) { if (true) { break; } }"), Vec::<String>::new());
    assert_eq!(messages("while (true) 1; finally break;"), Vec::<String>::new());
    assert_eq!(messages("for (;) break;"), Vec::<String>::new());
    assert_eq!(messages("while (true) {} break;"), vec!["Can only break from inside a loop."]);
}

#[test]
fn return_belongs_in_a_function() {
    assert_eq!(messages("return 1;"), vec!["Can only return from a function."]);
    assert_eq!(messages("{ return; }"), vec!["Can only return from a function."]);
    assert_eq!(messages("while (true) { return; }"), vec!["Can only return from a function."]);
    assert_eq!(messages("funct f() { if (true) { return 1; } return; }"), Vec::<String>::new());
    assert_eq!(messages("funct f() {} return;"), vec!["Can only return from a function."]);
}

#[test]
fn the_context_is_that_of_the_nearest_loop_or_function() {
    assert_eq!(messages("funct f() { while (true) { return 1; } }"), vec!["Can only return from a function."]);
    assert_eq!(messages("funct f() { while (true) { break; } return 1; }"), Vec::<String>::new());
}

#[test]
fn an_error_ends_its_statement_and_no_other() {
    assert_eq!(
        messages("break; return; var x = x; { var y; var y; }"),
        vec![
            "Can only break from inside a loop.",
            "Can only return from a function.",
            "Cannot use a variable in it's own initializer",
            "Already a variable with this name in scope",
        ]
    );
    assert_eq!(messages("{ break; return; }"), vec!["Can only break from inside a loop."]);
}

#[test]
fn distances_count_the_scopes_between() {
    assert_eq!(distances("{ var a = 1; print a; }"), found(&[("a", Some(0))]));
    assert_eq!(distances("{ var a = 1; { print a; } }"), found(&[("a", Some(1))]));
    assert_eq!(distances("{ var a = 1; { { a = 2; } } }"), found(&[("a", Some(2))]));
    assert_eq!(
        distances("{ var a = 1; { var a = 2; print a; } print a; }"),
        found(&[("a", Some(0)), ("a", Some(0))])
    );
    assert_eq!(
        distances("{ var a; funct f(b) { print a; print b; { print b; } } }"),
        found(&[("a", Some(1)), ("b", Some(0)), ("b", Some(1))])
    );
}

#[test]
fn globals_are_left_unresolved() {
    assert_eq!(distances("var a = 1; print a; { print a; }"), found(&[("a", None), ("a", None)]));
    assert_eq!(distances("funct f() { return g; }"), found(&[("g", None)]));
    assert_eq!(distances("print clock;"), found(&[("clock", None)]));
}

#[test]
fn the_nearest_declaration_counts() {
    assert_eq!(
        distances("{ var a; { var a; { print a; } } }"),
        found(&[("a", Some(1))])
    );
    assert_eq!(
        distances("{ var a = 1; { funct show() { print a; } var a = 2; show(); } }"),
        found(&[("a", Some(2)), ("show", Some(0))])
    );
}

#[test]
fn resolving_twice_changes_no_distance() {
    let source = "{ var a = 1; { var b = a; funct f(c) { return a + b + c + g; } f(b); } }";
    let statements = parse(source);
    let mut interpreter = Interpreter::new();
    let mut resolver = Resolver::new();
    resolver.resolve(&statements, &mut interpreter);
    let once: Vec<Option<usize>> =
        references(&statements).iter().map(|t| interpreter.distance(t)).collect();
    resolver.resolve(&statements, &mut interpreter);
    let twice: Vec<Option<usize>> =
        references(&statements).iter().map(|t| interpreter.distance(t)).collect();
    assert!(!resolver.had_error());
    assert_eq!(once, twice);
    assert_eq!(once, vec![Some(1), Some(2), Some(1), Some(0), None, Some(0), Some(0)]);
}

#[test]
fn a_new_error_has_its_token_and_message() {
    let token = Token::new(rlox::common::TokenType::Identifier, "a", 3, 4);
    let error = ResolverError::new(token.clone(), "wrong".to_string());
    assert_eq!(error.token, token);
    assert_eq!(error.message, "wrong");
}
