use rlox::ast_printer::AstPrinter;
use rlox::common::{Token, TokenType};
use rlox::expr::{Expr, Literal};
use rlox::lexer::Lexer;
use rlox::parser::Parser;
use rlox::stmt::Stmt;

fn tokens(source: &str) -> Vec<Token> {
    let (tokens, errors) = Lexer::new(source).collect_tokens();
    assert!(errors.is_empty(), "{:?}", errors);
    tokens
}

fn parse(source: &str) -> (Vec<Stmt>, Vec<String>) {
    let mut parser = Parser::new(tokens(source));
    let statements = parser.parse();
    let errors = parser.errors().iter().map(|e| e.message.clone()).collect();
    assert!(parser.is_done());
    (statements, errors)
}

fn good(source: &str) -> Vec<Stmt> {
    let (statements, errors) = parse(source);
    assert!(errors.is_empty(), "{:?}", errors);
    statements
}

/// The one expression statement that `source` is, written out.
fn shape(source: &str) -> String {
    let statements = good(source);
    assert_eq!(statements.len(), 1);
    match &statements[0] {
        Stmt::Expression { expression } => AstPrinter {}.visit_expr(expression),
        other => panic!("no expression statement: {:?}", other),
    }
}

#[test]
fn factors_bind_tighter_than_terms() {
    assert_eq!(shape("1 + 2 * 3;"), "(Number(1) + (Number(2) * Number(3)))");
    assert_eq!(shape("1 * 2 + 3;"), "((Number(1) * Number(2)) + Number(3))");
    assert_eq!(shape("1 - 2 / 3;"), "(Number(1) - (Number(2) / Number(3)))");
}

#[test]
fn binary_operators_associate_to_the_left() {
    assert_eq!(shape("1 - 2 - 3;"), "((Number(1) - Number(2)) - Number(3))");
    assert_eq!(shape("8 / 4 / 2;"), "((Number(8) / Number(4)) / Number(2))");
    assert_eq!(shape("a == b != c;"), "((a == b) != c)");
    assert_eq!(shape("a < b <= c > d >= e;"), "((((a < b) <= c) > d) >= e)");
}

#[test]
fn tiers_from_loosest_to_tightest() {
    assert_eq!(
        shape("a or b and c == d < e + f * -g;"),
        "()a or ()b and (c == (d < (e + (f * (-g)))))))"
    );
    assert_eq!(shape("a and b or c;"), "()()a and b) or c)");
    assert_eq!(shape("!a == b;"), "((!a) == b)");
    assert_eq!(shape("--a;"), "(-(-a))");
}

#[test]
fn grouping_overrides_precedence() {
    assert_eq!(shape("(1 + 2) * 3;"), "((group (Number(1) + Number(2))) * Number(3))");
}

#[test]
fn literals() {
    assert_eq!(shape("true;"), "Bool(true)");
    assert_eq!(shape("false;"), "Bool(false)");
    assert_eq!(shape("nil;"), "Nil");
    assert_eq!(shape("\"text\";"), "Strang(\"text\")");
    assert_eq!(shape("12.5;"), "Number(12.5)");
    let statements = good("12.5;");
    assert_eq!(
        statements[0],
        Stmt::Expression { expression: Expr::Literal { value: Literal::Number("12.5".to_string()) } }
    );
}

#[test]
fn assignment_associates_to_the_right() {
    assert_eq!(shape("a = b = 1;"), "a = b = Number(1)");
    assert_eq!(shape("a = 1 + 2;"), "a = (Number(1) + Number(2))");
    assert_eq!(shape("a = b or c;"), "a = ()b or c)");
}

#[test]
fn an_invalid_assignment_target_is_reported_and_stands_for_the_whole() {
    let (statements, errors) = parse("1 = 2; a + b = 3;");
    assert_eq!(errors, vec!["Invalid assignment target.", "Invalid assignment target."]);
    assert_eq!(statements.len(), 2);
    match &statements[0] {
        Stmt::Expression { expression } => {
            assert_eq!(AstPrinter {}.visit_expr(expression), "Number(1)")
        }
        other => panic!("{:?}", other),
    }
    let mut parser = Parser::new(tokens("1 = 2;"));
    parser.parse();
    assert_eq!(parser.errors()[0].token, Token::new(TokenType::Equal, "=", 1, 4));
}

#[test]
fn calls_and_properties_chain() {
    let statements = good("a.b.c(1, 2)(3).d;");
    let Stmt::Expression { expression } = &statements[0] else { panic!() };
    let Expr::Get { object, name } = expression else { panic!("{:?}", expression) };
    assert_eq!(name.raw, "d");
    let Expr::Call { callee, paren, arguments } = &**object else { panic!() };
    assert_eq!(paren.token_type, TokenType::RightParen);
    assert_eq!(arguments.len(), 1);
    let Expr::Call { callee, arguments, .. } = &**callee else { panic!() };
    assert_eq!(arguments.len(), 2);
    let Expr::Get { object, name } = &**callee else { panic!() };
    assert_eq!(name.raw, "c");
    let Expr::Get { object, name } = &**object else { panic!() };
    assert_eq!(name.raw, "b");
    assert!(matches!(&**object, Expr::Variable { name } if name.raw == "a"));
    let statements = good("f()();");
    let Stmt::Expression { expression: Expr::Call { callee, arguments, .. } } = &statements[0] else {
        panic!()
    };
    assert!(arguments.is_empty());
    assert!(matches!(&**callee, Expr::Call { .. }));
}

#[test]
fn property_assignment() {
    let statements = good("a.b.c = 1;");
    let Stmt::Expression { expression: Expr::SetField { object, name, value } } = &statements[0] else {
        panic!()
    };
    assert_eq!(name.raw, "c");
    assert!(matches!(&**object, Expr::Get { name, .. } if name.raw == "b"));
    assert!(matches!(&**value, Expr::Literal { value: Literal::Number(text) } if text == "1"));
}

#[test]
fn a_trailing_comma_is_taken() {
    let statements = good("f(1,);");
    let Stmt::Expression { expression: Expr::Call { arguments, .. } } = &statements[0] else {
        panic!()
    };
    assert_eq!(arguments.len(), 1);
}

#[test]
fn declarations() {
    let statements = good("var a; var b = 1; funct f(x, y) { return x; } class C { meth m() { } meth n(a) { print a; } }");
    assert_eq!(statements.len(), 4);
    assert!(matches!(&statements[0], Stmt::Var { name, initializer: None } if name.raw == "a"));
    assert!(matches!(&statements[1], Stmt::Var { name, initializer: Some(_) } if name.raw == "b"));
    let Stmt::Function { name, parameters, body } = &statements[2] else { panic!() };
    assert_eq!(name.raw, "f");
    assert_eq!(parameters.iter().map(|p| p.raw.as_str()).collect::<Vec<_>>(), vec!["x", "y"]);
    assert!(matches!(&body[..], [Stmt::Return { return_value: Some(_), .. }]));
    let Stmt::Class { name, methods } = &statements[3] else { panic!() };
    assert_eq!(name.raw, "C");
    assert_eq!(methods.len(), 2);
    assert!(matches!(&methods[1], Stmt::Function { name, parameters, .. } if name.raw == "n" && parameters.len() == 1));
}

#[test]
fn statements() {
    let statements = good("print 1; { var a; a; } if (a) b; else c; if (a) b; while (a) b; finally c; while (a) { break; } return; return 1;");
    assert_eq!(statements.len(), 8);
    assert!(matches!(&statements[0], Stmt::Print { .. }));
    assert!(matches!(&statements[1], Stmt::Block { statements } if statements.len() == 2));
    assert!(matches!(&statements[2], Stmt::If { else_branch: Some(_), .. }));
    assert!(matches!(&statements[3], Stmt::If { else_branch: None, .. }));
    assert!(matches!(&statements[4], Stmt::While { finally_branch: Some(_), .. }));
    let Stmt::While { then_branch, finally_branch: None, .. } = &statements[5] else { panic!() };
    assert!(matches!(&**then_branch, Stmt::Block { statements } if matches!(&statements[..], [Stmt::Break { .. }])));
    assert!(matches!(&statements[6], Stmt::Return { return_value: None, .. }));
    assert!(matches!(&statements[7], Stmt::Return { return_value: Some(_), .. }));
}

#[test]
fn else_belongs_to_the_nearest_if() {
    let statements = good("if (a) if (b) c; else d;");
    let Stmt::If { then_branch, else_branch: None, .. } = &statements[0] else { panic!() };
    assert!(matches!(&**then_branch, Stmt::If { else_branch: Some(_), .. }));
}

#[test]
fn for_stands_for_a_while_loop() {
    let statements = good("for (var i = 0; i < 3; i = i + 1) print i;");
    let Stmt::Block { statements: outer } = &statements[0] else { panic!() };
    assert_eq!(outer.len(), 2);
    assert!(matches!(&outer[0], Stmt::Var { name, .. } if name.raw == "i"));
    let Stmt::While { condition, then_branch, finally_branch: None } = &outer[1] else { panic!() };
    assert_eq!(AstPrinter {}.visit_expr(condition), "(i < Number(3))");
    let Stmt::Block { statements: inner } = &**then_branch else { panic!() };
    assert!(matches!(&inner[..], [Stmt::Print { .. }, Stmt::Expression { expression: Expr::Assign { .. } }]));
}

#[test]
fn for_without_its_parts() {
    let statements = good("for (;) print 1;");
    let Stmt::While { condition, then_branch, finally_branch: None } = &statements[0] else {
        panic!("{:?}", statements)
    };
    assert_eq!(*condition, Expr::Literal { value: Literal::Bool(true) });
    assert!(matches!(&**then_branch, Stmt::Print { .. }));
    let statements = good("for (i = 0; ; ) print 1;");
    let Stmt::Block { statements: outer } = &statements[0] else { panic!() };
    assert!(matches!(&outer[0], Stmt::Expression { .. }));
    assert!(matches!(&outer[1], Stmt::While { condition: Expr::Literal { value: Literal::Bool(true) }, .. }));
    let statements = good("for (; i = i + 1) print 1;");
    let Stmt::While { condition, then_branch, .. } = &statements[0] else { panic!() };
    assert_eq!(*condition, Expr::Literal { value: Literal::Bool(true) });
    let Stmt::Block { statements: inner } = &**then_branch else { panic!() };
    assert!(matches!(&inner[..], [Stmt::Print { .. }, Stmt::Expression { expression: Expr::Assign { .. } }]));
    let (_, errors) = parse("for (;;) print 1;");
    assert_eq!(errors.first().map(String::as_str), Some("Expected expression"));
}

#[test]
fn one_error_for_one_mistake() {
    let (statements, errors) = parse("var = 1; print 2;");
    assert_eq!(errors, vec!["Expected variable name"]);
    assert!(matches!(&statements[..], [Stmt::Print { .. }]));
    let (statements, errors) = parse("print ; var x = ; print 3;");
    assert_eq!(errors, vec!["Expected expression", "Expected expression"]);
    assert!(matches!(&statements[..], [Stmt::Print { .. }]));
    let (statements, errors) = parse("1 + ; 2 * ; 3;");
    assert_eq!(errors.len(), 2);
    assert_eq!(statements.len(), 1);
}

#[test]
fn parsing_resumes_at_a_keyword() {
    let (statements, errors) = parse("(1 + 2 print 3;");
    assert_eq!(errors, vec!["Expect ')'"]);
    assert!(statements.is_empty());
    let (statements, errors) = parse("a b c var d; print 1;");
    assert_eq!(errors, vec!["Expect ';' after expression"]);
    assert_eq!(statements.len(), 2);
}

#[test]
fn every_syntax_error_has_its_message() {
    let cases = [
        ("print 1", "Expect ';' after value"),
        ("1", "Expect ';' after expression"),
        ("var a = 1", "Expect ';' after variable declaration"),
        ("var 1;", "Expected variable name"),
        ("funct (", "Expect 'funct' keyword be followed by function name"),
        ("funct f {", "Expect '(' after function name"),
        ("funct f(a b) {}", "Expect parameters are comma seperated"),
        ("funct f(a", "Expect parameters are comma seperated"),
        ("funct f(", "Expect function parameter list to be closed with ')'"),
        ("funct f() { print 1;", "Expect '}' to close a block"),
        ("funct f() print 1; }", "Expect '{' to open a block"),
        ("class C { meth m() 1 }", "Expect '{' to open a block"),
        ("{ print 1;", "Expect '}' to close a block"),
        ("class 1", "Expect class name after 'class' keyword"),
        ("class C 1", "Expect '{' to open class body"),
        ("class C { 1", "Expect '}' to close class body"),
        ("if a", "Expect '(' to open 'if' condition"),
        ("if (a b", "Expect ')' to close 'if' condition"),
        ("while a", "Expect '(' to open 'while' condition"),
        ("while (a b", "Expect ')' to close 'while' condition"),
        ("for a", "Expect '(' to open 'for' clause"),
        ("for (var i = 0; i < 1 )", "Expect ';' after 'for' loop condition"),
        ("for (var i = 0; i < 1; i = 2 {", "Expect ')' to close 'for' clause"),
        ("break 1;", "Expect ';' after break"),
        ("return 1 2;", "Expect ';' after return statement"),
        ("f(1 2);", "Expect arguments are comma seperated"),
        ("a.1;", "Expect identifier after '.' operator on object"),
        ("(1;", "Expect ')'"),
        ("+;", "Expected expression"),
    ];
    for (source, message) in cases {
        let (_, errors) = parse(source);
        assert_eq!(errors.first().map(String::as_str), Some(message), "in {:?}", source);
    }
}

#[test]
fn an_error_names_the_token_that_it_was_found_at() {
    let mut parser = Parser::new(tokens("print 1 2;"));
    parser.parse();
    assert_eq!(parser.errors().len(), 1);
    assert_eq!(parser.errors()[0].token, Token::new(TokenType::Number, "2", 1, 10));
    assert!(parser.had_error());
    let mut parser = Parser::new(tokens("print 1"));
    parser.parse();
    assert_eq!(parser.errors()[0].token.token_type, TokenType::EOF);
}

fn call_with(arguments: usize) -> String {
    let list: Vec<String> = (0..arguments).map(|i| i.to_string()).collect();
    format!("f({});", list.join(", "))
}

#[test]
fn a_call_may_pass_255_arguments() {
    assert_eq!(parse(&call_with(255)).1, Vec::<String>::new());
    assert_eq!(parse(&call_with(256)).1, vec!["Exceeded max argument count"]);
    assert_eq!(parse(&call_with(257)).1.len(), 2);
    let (statements, _) = parse(&call_with(256));
    let Stmt::Expression { expression: Expr::Call { arguments, .. } } = &statements[0] else {
        panic!()
    };
    assert_eq!(arguments.len(), 256);
}

#[test]
fn a_function_may_have_255_parameters() {
    let names = |n: usize| (0..n).map(|i| format!("p{}", i)).collect::<Vec<_>>().join(", ");
    assert_eq!(parse(&format!("funct f({}) {{ }}", names(255))).1, Vec::<String>::new());
    let (_, errors) = parse(&format!("funct f({}) {{ }}", names(256)));
    assert_eq!(errors.first().map(String::as_str), Some("Exceeded max parameter count"));
}

#[test]
fn tokens_without_an_end_marker_are_parsed_too() {
    let mut list = tokens("print 1;");
    list.pop();
    let mut parser = Parser::new(list);
    assert_eq!(parser.parse().len(), 1);
    assert!(!parser.had_error());
    let mut parser = Parser::new(Vec::new());
    assert!(parser.is_done());
    assert!(parser.parse().is_empty());
    let mut list = tokens("print 1");
    list.pop();
    let mut parser = Parser::new(list);
    assert!(parser.parse().is_empty());
    assert_eq!(parser.errors()[0].token, Token::new(TokenType::EOF, "", 0, 0));
}

#[test]
fn the_printer_writes_what_it_has_a_form_for() {
    assert_eq!(shape("f(1);"), "haven't bothered to implement this pp yet");
    assert_eq!(shape("a.b;"), "haven't bothered to implement this pp yet");
    assert_eq!(shape("-a;"), "(-a)");
    assert_eq!(shape("a = 1;"), "a = Number(1)");
}
