use rlox::common::{Token, TokenType};
use rlox::expr::{Expr, Literal};
use rlox::interpreter::{Action, Event, Interpreter, Operation};
use rlox::lexer::Lexer;
use rlox::parser::Parser;
use rlox::resolver::Resolver;
use rlox::stmt::Stmt;

struct Outcome {
    lines: Vec<String>,
    error: Option<String>,
}

/// Does for the interpreter what it asks of its host, until the run is done.
fn drive(interpreter: &mut Interpreter) -> Outcome {
    let mut lines = Vec::new();
    let mut event = Event::Resume;
    for _ in 0..1_000_000 {
        match interpreter.step(event) {
            Action::Continue => event = Event::Resume,
            Action::Print(line) => {
                lines.push(line);
                event = Event::Resume;
            }
            Action::Arithmetic { operation, left, right } => {
                let a = f32::from_bits(left);
                let b = f32::from_bits(right);
                let result = match operation {
                    Operation::Add => a + b,
                    Operation::Subtract => a - b,
                    Operation::Multiply => a * b,
                    Operation::Divide => a / b,
                };
                event = Event::Number(result.to_bits());
            }
            Action::Read(text) => {
                event = Event::Reading(text.parse::<f32>().ok().map(f32::to_bits));
            }
            Action::Render(bits) => event = Event::Text(f32::from_bits(bits).to_string()),
            Action::Clock => event = Event::Number(1234.0f32.to_bits()),
            Action::Done => return Outcome { lines, error: None },
            Action::Fail(error) => return Outcome { lines, error: Some(error.message) },
        }
    }
    panic!("the program did not end");
}

fn parse(source: &str) -> Vec<Stmt> {
    let (tokens, errors) = Lexer::new(source).collect_tokens();
    assert!(errors.is_empty(), "lexical errors: {:?}", errors);
    let mut parser = Parser::new(tokens);
    let statements = parser.parse();
    assert!(!parser.had_error(), "syntax errors: {:?}", parser.errors());
    statements
}

fn run(source: &str) -> Outcome {
    let statements = parse(source);
    let mut interpreter = Interpreter::new();
    let mut resolver = Resolver::new();
    resolver.resolve(&statements, &mut interpreter);
    assert!(!resolver.had_error(), "semantic errors: {:?}", resolver.errors());
    interpreter.interpret(&statements);
    drive(&mut interpreter)
}

fn printed(source: &str) -> Vec<String> {
    let outcome = run(source);
    assert_eq!(outcome.error, None);
    outcome.lines
}

#[test]
fn number_literals_evaluate_to_themselves() {
    assert_eq!(printed("print 1; print 2.5; print 0.125; print 100;"), vec!["1", "2.5", "0.125", "100"]);
    assert_eq!(printed("print 16777216; print 0.1;"), vec![16777216f32.to_string(), 0.1f32.to_string()]);
}

#[test]
fn arithmetic_follows_precedence() {
    assert_eq!(printed("print 1 + 2 * 3;"), vec!["7"]);
    assert_eq!(printed("print (1 + 2) * 3;"), vec!["9"]);
    assert_eq!(printed("print 10 - 4 - 3;"), vec!["3"]);
    assert_eq!(printed("print 8 / 2 / 2;"), vec!["2"]);
    assert_eq!(printed("print -3 + 1;"), vec!["-2"]);
    assert_eq!(printed("print --3;"), vec!["3"]);
}

#[test]
fn closures_share_and_keep_what_they_capture() {
    let source = "funct make(){ var x = 0; funct inc(){ x = x + 1; return x; } return inc; } \
                  var f = make(); print f(); print f(); var g = make(); print g(); print f();";
    assert_eq!(printed(source), vec!["1", "2", "1", "3"]);
}

#[test]
fn inner_declaration_leaves_outer_binding() {
    assert_eq!(printed("var a = 1; { var a = 2; print a; } print a;"), vec!["2", "1"]);
    assert_eq!(printed("var a = 1; { a = 2; } print a;"), vec!["2"]);
    assert_eq!(printed("{ var a = 1; { var a = 2; a = 3; print a; } print a; }"), vec!["3", "1"]);
}

#[test]
fn break_leaves_the_nearest_loop_only() {
    let source = "var i = 0; while (i < 3) { var j = 0; while (true) { j = j + 1; if (j == 2) break; } \
                  print i * 10 + j; i = i + 1; }";
    assert_eq!(printed(source), vec!["2", "12", "22"]);
}

#[test]
fn break_leaves_a_desugared_for_loop() {
    let source = "for (var i = 0; i < 10; i = i + 1) { if (i == 3) break; print i; } print \"done\";";
    assert_eq!(printed(source), vec!["0", "1", "2", "done"]);
}

#[test]
fn finally_runs_once_however_the_loop_ends() {
    let source = "var i = 0; while (i < 2) { i = i + 1; } finally { print \"f1\"; } \
                  while (true) { break; } finally { print \"f2\"; } print \"end\";";
    assert_eq!(printed(source), vec!["f1", "f2", "end"]);
}

#[test]
fn for_loop_counts() {
    assert_eq!(printed("for (var i = 0; i < 3; i = i + 1) print i;"), vec!["0", "1", "2"]);
}

#[test]
fn equality_coerces() {
    assert_eq!(printed("print \"10\" == 10;"), vec!["true"]);
    assert_eq!(printed("print 10 == \"10\";"), vec!["true"]);
    assert_eq!(printed("print nil == false;"), vec!["true"]);
    assert_eq!(printed("print false == nil;"), vec!["true"]);
    assert_eq!(printed("print \"abc\" == 10;"), vec!["false"]);
    assert_eq!(printed("print \"abc\" != 10;"), vec!["true"]);
    assert_eq!(printed("print nil == nil;"), vec!["false"]);
    assert_eq!(printed("print true == nil;"), vec!["false"]);
    assert_eq!(printed("print \"a\" == \"a\";"), vec!["true"]);
    assert_eq!(printed("print 1 == 1;"), vec!["true"]);
    assert_eq!(printed("print 1 == 2;"), vec!["false"]);
    assert_eq!(printed("print 0 == -0;"), vec!["true"]);
    assert_eq!(printed("funct f(){} print f == f;"), vec!["false"]);
    assert_eq!(printed("class C {} print C == C;"), vec!["false"]);
}

#[test]
fn instances_are_equal_by_class_and_fields() {
    let source = "class C {} class D {} var a = C(); var b = C(); print a == b; \
                  a.x = 1; print a == b; b.x = \"1\"; print a == b; b.x = 2; print a == b; \
                  var d = D(); print C() == d; a.y = C(); b.x = 1; b.y = C(); print a == b;";
    assert_eq!(printed(source), vec!["true", "false", "true", "false", "false", "true"]);
}

#[test]
fn instances_are_shared() {
    let source = "class C {} var a = C(); var b = a; b.x = 1; print a.x; a.x = 2; print b.x; print a;";
    assert_eq!(printed(source), vec!["1", "2", "C instance"]);
}

#[test]
fn division_by_zero_halts() {
    let outcome = run("print 1; 1 / 0; print 2;");
    assert_eq!(outcome.lines, vec!["1"]);
    assert_eq!(outcome.error.as_deref(), Some("cannot divide by 0"));
    let outcome = run("print 3 / -0;");
    assert_eq!(outcome.error.as_deref(), Some("cannot divide by 0"));
}

#[test]
fn nothing_runs_after_a_failure() {
    let statements = parse("1 / 0; print 2;");
    let mut interpreter = Interpreter::new();
    interpreter.interpret(&statements);
    let outcome = drive(&mut interpreter);
    assert!(outcome.error.is_some());
    assert!(interpreter.is_idle());
    assert!(matches!(interpreter.step(Event::Resume), Action::Done));
}

#[test]
fn strings_concatenate() {
    assert_eq!(printed("print \"x\" + 1;"), vec!["x1"]);
    assert_eq!(printed("print 1 + \"x\";"), vec!["1x"]);
    assert_eq!(printed("print \"a\" + \"b\";"), vec!["ab"]);
    assert_eq!(printed("print \"a\" + nil + true;"), vec!["aniltrue"]);
    assert_eq!(printed("print 1.5 + \"\";"), vec!["1.5"]);
    assert_eq!(printed("funct f(a, b) {} print \"f: \" + f;"), vec!["f: function <2>"]);
    assert_eq!(printed("class C {} print C + \"!\";"), vec!["C!"]);
}

#[test]
fn arity_mismatch_names_both_counts() {
    let outcome = run("funct f(a, b) { return a; } f(1);");
    assert_eq!(outcome.error.as_deref(), Some("Expected 2 arguments, found 1"));
    let outcome = run("funct f(a, b) { return a; } f(1, 2, 3);");
    assert_eq!(outcome.error.as_deref(), Some("Expected 2 arguments, found 3"));
    let outcome = run("class C {} C(1);");
    assert_eq!(outcome.error.as_deref(), Some("Expected 0 arguments, found 1"));
    let outcome = run("clock(1);");
    assert_eq!(outcome.error.as_deref(), Some("Expected 0 arguments, found 1"));
    assert_eq!(printed("funct f(a, b) { return a + b; } print f(1, 2);"), vec!["3"]);
}

#[test]
fn logical_operators_short_circuit_to_booleans() {
    assert_eq!(printed("print 1 or 2;"), vec!["true"]);
    assert_eq!(printed("print nil or 2;"), vec!["2"]);
    assert_eq!(printed("print nil and 2;"), vec!["false"]);
    assert_eq!(printed("print 1 and 2;"), vec!["2"]);
    assert_eq!(printed("var a = 0; funct f() { a = 1; return true; } print true or f(); print a;"), vec!["true", "0"]);
    assert_eq!(printed("var a = 0; funct f() { a = 1; return true; } print false and f(); print a;"), vec!["false", "0"]);
}

#[test]
fn truthiness() {
    assert_eq!(printed("print !nil; print !false; print !0; print !\"\"; print !true;"),
        vec!["true", "true", "false", "false", "false"]);
    assert_eq!(printed("if (0) print \"yes\"; else print \"no\";"), vec!["yes"]);
    assert_eq!(printed("if (nil) print \"yes\"; else print \"no\";"), vec!["no"]);
    assert_eq!(printed("if (false) print \"yes\";"), Vec::<String>::new());
}

#[test]
fn comparisons_order_values() {
    assert_eq!(printed("print 1 < 2; print 2 <= 2; print 3 > 4; print 4 >= 4;"), vec!["true", "true", "false", "true"]);
    assert_eq!(printed("print \"a\" < \"b\"; print \"ab\" < \"a\"; print \"a\" >= \"a\";"), vec!["true", "false", "true"]);
    assert_eq!(printed("print 1 < \"a\"; print \"a\" < true; print nil > false;"), vec!["true", "true", "true"]);
    assert_eq!(printed("print false < true; print nil <= nil;"), vec!["true", "true"]);
    assert_eq!(printed("funct f(){} print f <= f; print f >= f;"), vec!["false", "false"]);
    assert_eq!(printed("print -1 < 0; print -2 < -1; print 0 <= -0;"), vec!["true", "true", "true"]);
}

#[test]
fn functions_return_values_or_nil() {
    assert_eq!(printed("funct f() { return; } print f();"), vec!["nil"]);
    assert_eq!(printed("funct f() { } print f();"), vec!["nil"]);
    assert_eq!(printed("funct f(n) { if (n < 2) return n; return f(n - 1) + f(n - 2); } print f(10);"), vec!["55"]);
    assert_eq!(printed("funct f() { { { return 1; } } print 2; } print f(); print 3;"), vec!["1", "3"]);
}

#[test]
fn values_are_written() {
    assert_eq!(printed("print nil; print true; print false; print \"text\"; print clock;"),
        vec!["nil", "true", "false", "text", "function <0>"]);
    assert_eq!(printed("class Point {} print Point; print Point();"), vec!["Point", "Point instance"]);
    assert_eq!(printed("print clock();"), vec!["1234"]);
}

#[test]
fn runtime_errors() {
    assert_eq!(run("print a;").error.as_deref(), Some("Attempted to access undefined variable a."));
    assert_eq!(run("a = 1;").error.as_deref(), Some("Attempted to assign to undefined variable a"));
    assert_eq!(run("print -\"a\";").error.as_deref(), Some("Unary operator - not supported on this operand"));
    assert_eq!(run("print 1 - \"a\";").error.as_deref(), Some("invalid operands for -"));
    assert_eq!(run("print nil + 1;").error.as_deref(), Some("invalid operands for +"));
    assert_eq!(run("print true * 2;").error.as_deref(), Some("invalid operands for *"));
    assert_eq!(run("print 1 / nil;").error.as_deref(), Some("invalid operands for /"));
    assert_eq!(run("\"f\"();").error.as_deref(), Some("Only functions and classes may be called"));
    assert_eq!(run("var a = 1; print a.x;").error.as_deref(), Some("Only instances have properties"));
    assert_eq!(run("var a = 1; a.x = 2;").error.as_deref(), Some("Only instances have properties"));
    assert_eq!(run("class C {} var c = C(); print c.x;").error.as_deref(), Some("Property x does not exist on C instance"));
}

#[test]
fn an_unexpected_answer_ends_the_run() {
    let statements = parse("print 1 + 2;");
    let mut interpreter = Interpreter::new();
    interpreter.interpret(&statements);
    assert!(matches!(interpreter.step(Event::Number(0)), Action::Fail(_)));
    assert!(interpreter.is_idle());
}

#[test]
fn globals_are_found_without_the_resolver() {
    let statements = parse("var a = 1; funct f() { return a; } a = 2; print f();");
    let mut interpreter = Interpreter::new();
    interpreter.interpret(&statements);
    let outcome = drive(&mut interpreter);
    assert_eq!(outcome.error, None);
    assert_eq!(outcome.lines, vec!["2"]);
}

#[test]
fn lexical_scope_beats_later_declarations() {
    let source = "var a = \"global\"; { funct show() { print a; } show(); var a = \"block\"; show(); }";
    assert_eq!(printed(source), vec!["global", "global"]);
}

#[test]
fn a_run_can_follow_a_run() {
    let first = parse("var a = 1;");
    let second = parse("print a + 1;");
    let mut interpreter = Interpreter::new();
    let mut resolver = Resolver::new();
    resolver.resolve(&first, &mut interpreter);
    interpreter.interpret(&first);
    assert_eq!(drive(&mut interpreter).error, None);
    resolver.resolve(&second, &mut interpreter);
    interpreter.interpret(&second);
    assert_eq!(drive(&mut interpreter).lines, vec!["2"]);
}

#[test]
fn break_and_return_outside_their_place_end_the_run() {
    let statements = parse("print 1; break; print 2;");
    let mut interpreter = Interpreter::new();
    interpreter.interpret(&statements);
    let outcome = drive(&mut interpreter);
    assert_eq!(outcome.lines, vec!["1"]);
    let broken = "The interpreter met a state that no program leads to";
    assert_eq!(outcome.error.as_deref(), Some(broken));
    let statements = parse("return 1;");
    interpreter.interpret(&statements);
    assert_eq!(drive(&mut interpreter).error.as_deref(), Some(broken));
    let statements = parse("funct f() { break; } while (true) { f(); }");
    interpreter.interpret(&statements);
    assert_eq!(drive(&mut interpreter).error.as_deref(), Some(broken));
}

fn literal(text: &str) -> Box<Expr> {
    Box::new(Expr::Literal { value: Literal::Number(text.to_string()) })
}

fn evaluate(expression: Expr) -> Outcome {
    let statements = vec![Stmt::Print { expression }];
    let mut interpreter = Interpreter::new();
    interpreter.interpret(&statements);
    drive(&mut interpreter)
}

#[test]
fn operators_that_are_none_end_the_run() {
    let comma = Token::new(TokenType::Comma, ",", 1, 2);
    let outcome = evaluate(Expr::Binary { left: literal("1"), right: literal("2"), operator: comma.clone() });
    assert_eq!(outcome.error.as_deref(), Some("Invalid binary operator ,"));
    let outcome = evaluate(Expr::Logical { left: literal("1"), right: literal("2"), operator: comma.clone() });
    assert_eq!(outcome.error.as_deref(), Some("invalid operator , in logical expression"));
    let outcome = evaluate(Expr::Unary { right: literal("1"), operator: comma });
    assert_eq!(outcome.error.as_deref(), Some("Unary operator , not supported on this operand"));
}

#[test]
fn a_literal_that_is_no_number_ends_the_run() {
    let outcome = evaluate(*literal("1+2"));
    assert_eq!(outcome.error.as_deref(), Some("Invalid number literal"));
    assert_eq!(run("print 1+2;").error.as_deref(), Some("Invalid number literal"));
}

#[test]
fn a_wrong_distance_ends_the_run() {
    let statements = parse("{ var a = 1; print a; }");
    let mut interpreter = Interpreter::new();
    let Stmt::Block { statements: inner } = &statements[0] else { panic!() };
    let Stmt::Print { expression: Expr::Variable { name } } = &inner[1] else { panic!() };
    interpreter.resolve(name, 1);
    assert_eq!(interpreter.distance(name), Some(1));
    interpreter.interpret(&statements);
    assert_eq!(drive(&mut interpreter).error.as_deref(), Some("No variable with name a at depth 1"));
    let statements = parse("{ var a = 1; a = 2; }");
    let Stmt::Block { statements: inner } = &statements[0] else { panic!() };
    let Stmt::Expression { expression: Expr::Assign { name, .. } } = &inner[1] else { panic!() };
    interpreter.resolve(name, 7);
    interpreter.interpret(&statements);
    assert_eq!(drive(&mut interpreter).error.as_deref(), Some("Unable to assign to undefined variable a"));
}

#[test]
fn advance_takes_steps_up_to_the_next_request() {
    let statements = parse("var a = \"x\"; { var b = a; print b; } print 1 + 2;");
    let mut interpreter = Interpreter::new();
    Resolver::new().resolve(&statements, &mut interpreter);
    interpreter.interpret(&statements);
    assert!(matches!(interpreter.advance(Event::Resume, 0), Action::Continue));
    assert!(matches!(interpreter.advance(Event::Resume, 3), Action::Continue));
    assert!(matches!(interpreter.advance(Event::Resume, 1000), Action::Print(line) if line == "x"));
    assert!(matches!(interpreter.advance(Event::Resume, 1000), Action::Read(text) if text == "1"));
    assert!(matches!(
        interpreter.advance(Event::Reading(Some(1.0f32.to_bits())), 1000),
        Action::Read(text) if text == "2"
    ));
    assert!(matches!(
        interpreter.advance(Event::Reading(Some(2.0f32.to_bits())), 1000),
        Action::Arithmetic { operation: Operation::Add, left, right }
            if left == 1.0f32.to_bits() && right == 2.0f32.to_bits()
    ));
    assert!(matches!(
        interpreter.advance(Event::Number(3.0f32.to_bits()), 1000),
        Action::Render(bits) if bits == 3.0f32.to_bits()
    ));
    assert!(matches!(
        interpreter.advance(Event::Text("3".to_string()), 1000),
        Action::Print(line) if line == "3"
    ));
    assert!(matches!(interpreter.advance(Event::Resume, 1000), Action::Done));
    assert!(interpreter.is_idle());
}

#[test]
fn a_block_can_be_run_in_a_scope() {
    let first = parse("var a = \"global\";");
    let second = parse("print a;");
    let mut interpreter = Interpreter::new();
    interpreter.interpret(&first);
    assert_eq!(drive(&mut interpreter).error, None);
    assert_eq!(interpreter.globals(), 0);
    interpreter.execute_block(&second, interpreter.globals());
    assert_eq!(drive(&mut interpreter).lines, vec!["global"]);
}

#[test]
fn the_arguments_are_evaluated_in_order() {
    let source = "var log = \"\"; funct note(x) { log = log + x; return x; } \
                  funct three(a, b, c) { return a + b + c; } \
                  print three(note(\"a\"), note(\"b\"), note(\"c\")); print log;";
    assert_eq!(printed(source), vec!["abc", "abc"]);
}

#[test]
fn operands_are_evaluated_left_to_right() {
    let source = "var log = \"\"; funct note(x) { log = log + x; return 1; } \
                  print note(\"a\") + note(\"b\") * note(\"c\"); print log;";
    assert_eq!(printed(source), vec!["2", "abc"]);
}

#[test]
fn while_loops() {
    assert_eq!(printed("var i = 0; while (i < 3) i = i + 1; print i;"), vec!["3"]);
    assert_eq!(printed("while (false) print 1; finally print 2;"), vec!["2"]);
    assert_eq!(
        printed("var i = 0; while (i < 2) { i = i + 1; while (true) break; finally print \"in\"; } finally print \"out\";"),
        vec!["in", "in", "out"]
    );
}

#[test]
fn a_return_leaves_loops_and_blocks_behind() {
    let statements = parse("funct f() { while (true) { { return 7; } } } print f(); print 8;");
    let mut interpreter = Interpreter::new();
    interpreter.interpret(&statements);
    let outcome = drive(&mut interpreter);
    assert_eq!(outcome.error, None);
    assert_eq!(outcome.lines, vec!["7", "8"]);
}

#[test]
fn a_local_is_found_through_its_distance_only() {
    let statements = parse("{ var b = 1; print b; }");
    let mut interpreter = Interpreter::new();
    interpreter.interpret(&statements);
    assert_eq!(
        drive(&mut interpreter).error.as_deref(),
        Some("Attempted to access undefined variable b.")
    );
}

#[test]
fn scopes_are_given_up_when_the_run_leaves_them() {
    let statements = parse(
        "var i = 0; while (i < 100) { var j = i; { i = j + 1; } } \
         funct f(n) { if (n < 1) return 0; { return f(n - 1); } } f(20); \
         for (var k = 0; k < 3; k = k + 1) { if (k == 1) break; }",
    );
    let mut interpreter = Interpreter::new();
    Resolver::new().resolve(&statements, &mut interpreter);
    interpreter.interpret(&statements);
    assert_eq!(drive(&mut interpreter).error, None);
    assert_eq!(interpreter.scopes(), 1);
}

#[test]
fn a_scope_that_a_function_was_declared_in_is_kept() {
    let statements = parse(
        "funct make() { var x = 0; funct inc() { x = x + 1; return x; } return inc; } \
         var f = make(); { var unused = 1; } var g = make(); print f() + g() + f();",
    );
    let mut interpreter = Interpreter::new();
    Resolver::new().resolve(&statements, &mut interpreter);
    interpreter.interpret(&statements);
    let outcome = drive(&mut interpreter);
    assert_eq!(outcome.lines, vec!["4"]);
    assert_eq!(interpreter.scopes(), 3);
}

#[test]
fn a_failure_gives_the_scopes_up() {
    let statements = parse("{ { var a = 1; { print a / 0; } } }");
    let mut interpreter = Interpreter::new();
    Resolver::new().resolve(&statements, &mut interpreter);
    interpreter.interpret(&statements);
    assert!(drive(&mut interpreter).error.is_some());
    assert_eq!(interpreter.scopes(), 1);
}

#[test]
fn calls_nest_in_arguments_and_operands() {
    let source = "funct add(a, b) { return a + b; } funct twice(f, x) { return f(f(x, 1), 1); } \
                  print add(add(1, 2), add(3, add(4, 5))); print twice(add, 5) * add(1, 1) - 1;";
    assert_eq!(printed(source), vec!["15", "13"]);
}

#[test]
fn recursion_keeps_each_call_apart() {
    let source = "funct fact(n) { if (n < 2) return 1; var rest = fact(n - 1); return n * rest; } \
                  funct sum(n) { var total = 0; for (var i = 1; i <= n; i = i + 1) { total = total + i; } return total; } \
                  print fact(10); print sum(100);";
    assert_eq!(printed(source), vec!["3628800", "5050"]);
}

#[test]
fn closures_see_the_scope_of_their_declaration() {
    let source = "var x = \"global\"; funct outer() { var x = \"outer\"; funct inner() { print x; } return inner; } \
                  var f = outer(); { var x = \"block\"; f(); } \
                  funct counter(start) { funct next() { start = start + 1; return start; } return next; } \
                  var a = counter(10); var b = counter(20); print a(); print b(); print a(); print b();";
    assert_eq!(printed(source), vec!["outer", "11", "21", "12", "22"]);
}

#[test]
fn break_in_nested_blocks_goes_back_to_the_scope_of_the_loop() {
    let source = "var found = nil; { var i = 0; while (true) { var j = i * 2; { { if (j >= 6) { found = j; break; } } } i = i + 1; } \
                  finally { print i; } print found; }";
    assert_eq!(printed(source), vec!["3", "6"]);
}

#[test]
fn functions_are_values() {
    let source = "funct f() { return 1; } var g = f; class Box {} var b = Box(); b.run = g; \
                  var h = b.run; print h() + g(); print b.run;";
    assert_eq!(printed(source), vec!["2", "function <0>"]);
}

#[test]
fn a_property_can_hold_an_instance() {
    let source = "class Node {} var a = Node(); var b = Node(); a.next = b; b.value = 3; \
                  print a.next.value; a.next.value = 4; print b.value; var c = a.next; c.value = 5; print a.next.value;";
    assert_eq!(printed(source), vec!["3", "4", "5"]);
}

#[test]
fn assignment_gives_its_value() {
    assert_eq!(printed("var a; var b; a = b = 3; print a + b; print a = 4;"), vec!["6", "4"]);
    assert_eq!(printed("class C {} var c = C(); print c.x = 2;"), vec!["2"]);
}

#[test]
fn a_block_ends_where_it_began() {
    let source = "var a = 1; { var b = 2; { var c = 3; a = a + b + c; } } print a; { var b = 10; print a + b; }";
    assert_eq!(printed(source), vec!["6", "16"]);
}

#[test]
fn an_error_in_a_call_ends_everything() {
    let outcome = run("funct f() { print 1; print nil + 1; print 2; } print 0; f(); print 3;");
    assert_eq!(outcome.lines, vec!["0", "1"]);
    assert_eq!(outcome.error.as_deref(), Some("invalid operands for +"));
}

#[test]
fn numbers_are_floats() {
    assert_eq!(printed("print 0.1 + 0.2;"), vec![(0.1f32 + 0.2f32).to_string()]);
    assert_eq!(printed("print 1 / 3;"), vec![(1.0f32 / 3.0f32).to_string()]);
    assert_eq!(printed("print 16777216 + 1;"), vec!["16777216"]);
    assert_eq!(printed("print 10 / 4;"), vec!["2.5"]);
    assert_eq!(printed("print 1 / 0.5;"), vec!["2"]);
    assert_eq!(printed("print \"1e2\" == 100;"), vec!["true"]);
    assert_eq!(printed("print \" 1\" == 1;"), vec!["false"]);
}

#[test]
fn the_condition_of_a_loop_is_evaluated_each_time() {
    let source = "var n = 0; funct below(limit) { n = n + 1; return n < limit; } while (below(4)) { } print n;";
    assert_eq!(printed(source), vec!["4"]);
}

#[test]
fn instances_with_several_fields() {
    let source = "class P {} var a = P(); var b = P(); a.x = 1; a.y = 1; a.z = 1; b.z = 1; b.y = 2; b.x = 1; \
                  print a == b; b.y = 1; print a == b; print a != b; b.x = \"1\"; print a == b; b.w = 0; print a == b; \
                  var c = P(); c.x = 1; c.y = 1; c.v = 1; print a == c;";
    assert_eq!(printed(source), vec!["false", "true", "false", "true", "false", "false"]);
}
