use rlox::common::{LoxType, Token, TokenType};
use rlox::environment::Environment;

fn name(text: &str) -> Token {
    Token::new(TokenType::Identifier, text, 1, 1)
}

fn number(value: f32) -> LoxType {
    LoxType::Number(value.to_bits())
}

/// What a value holds, written out.
fn shown(value: &LoxType) -> String {
    format!("{:?}", value)
}

#[test]
fn a_new_environment_holds_the_global_scope() {
    let environment = Environment::new();
    assert_eq!(environment.len(), 1);
    assert_eq!(environment.parent(0), None);
}

#[test]
fn define_binds_and_overwrites() {
    let mut environment = Environment::new();
    environment.define(0, "a".to_string(), number(1.0));
    assert_eq!(shown(&environment.get(0, &name("a")).unwrap()), shown(&number(1.0)));
    environment.define(0, "a".to_string(), LoxType::Nil);
    assert_eq!(shown(&environment.get(0, &name("a")).unwrap()), shown(&LoxType::Nil));
}

#[test]
fn get_walks_the_chain() {
    let mut environment = Environment::new();
    let block = environment.child(0);
    let inner = environment.child(block);
    let other = environment.child(0);
    assert_eq!((block, inner, other), (1, 2, 3));
    assert_eq!(environment.parent(inner), Some(block));
    environment.define(0, "a".to_string(), number(1.0));
    environment.define(block, "b".to_string(), number(2.0));
    environment.define(inner, "a".to_string(), number(3.0));
    assert_eq!(shown(&environment.get(inner, &name("a")).unwrap()), shown(&number(3.0)));
    assert_eq!(shown(&environment.get(inner, &name("b")).unwrap()), shown(&number(2.0)));
    assert_eq!(shown(&environment.get(block, &name("a")).unwrap()), shown(&number(1.0)));
    assert_eq!(shown(&environment.get(other, &name("a")).unwrap()), shown(&number(1.0)));
    let error = environment.get(other, &name("b")).unwrap_err();
    assert_eq!(error.message, "Attempted to access undefined variable b.");
    assert_eq!(error.token, name("b"));
}

#[test]
fn an_inner_definition_leaves_the_outer_binding() {
    let mut environment = Environment::new();
    let outer = environment.child(0);
    environment.define(outer, "a".to_string(), number(1.0));
    let inner = environment.child(outer);
    environment.define(inner, "a".to_string(), number(2.0));
    assert_eq!(shown(&environment.get(inner, &name("a")).unwrap()), shown(&number(2.0)));
    assert_eq!(shown(&environment.get(outer, &name("a")).unwrap()), shown(&number(1.0)));
}

#[test]
fn assign_rebinds_the_nearest_binding() {
    let mut environment = Environment::new();
    let block = environment.child(0);
    let inner = environment.child(block);
    environment.define(0, "a".to_string(), number(1.0));
    environment.define(block, "a".to_string(), number(2.0));
    environment.assign(inner, &name("a"), number(5.0)).unwrap();
    assert_eq!(shown(&environment.get(block, &name("a")).unwrap()), shown(&number(5.0)));
    assert_eq!(shown(&environment.get(0, &name("a")).unwrap()), shown(&number(1.0)));
    assert_eq!(shown(&environment.get_at(inner, 1, &name("a")).unwrap()), shown(&number(5.0)));
    assert!(environment.get_at(inner, 0, &name("a")).is_err());
}

#[test]
fn assign_makes_no_binding() {
    let mut environment = Environment::new();
    let block = environment.child(0);
    let error = environment.assign(block, &name("a"), number(1.0)).unwrap_err();
    assert_eq!(error.message, "Attempted to assign to undefined variable a");
    assert!(environment.get(block, &name("a")).is_err());
    assert!(environment.get(0, &name("a")).is_err());
}

#[test]
fn get_at_reads_one_scope_only() {
    let mut environment = Environment::new();
    let block = environment.child(0);
    let inner = environment.child(block);
    environment.define(0, "a".to_string(), number(1.0));
    environment.define(inner, "b".to_string(), number(2.0));
    assert_eq!(shown(&environment.get_at(inner, 2, &name("a")).unwrap()), shown(&number(1.0)));
    assert_eq!(shown(&environment.get_at(inner, 0, &name("b")).unwrap()), shown(&number(2.0)));
    assert_eq!(
        environment.get_at(inner, 1, &name("a")).unwrap_err().message,
        "No variable with name a at depth 1"
    );
    assert_eq!(
        environment.get_at(inner, 3, &name("a")).unwrap_err().message,
        "No variable with name a at depth 3"
    );
    assert_eq!(
        environment.get_at(0, 12, &name("a")).unwrap_err().message,
        "No variable with name a at depth 12"
    );
}

#[test]
fn assign_at_writes_one_scope_only() {
    let mut environment = Environment::new();
    let block = environment.child(0);
    environment.define(0, "a".to_string(), number(1.0));
    environment.define(block, "b".to_string(), number(2.0));
    environment.assign_at(block, 1, &name("a"), number(3.0)).unwrap();
    assert_eq!(shown(&environment.get(0, &name("a")).unwrap()), shown(&number(3.0)));
    environment.assign_at(block, 0, &name("b"), number(4.0)).unwrap();
    assert_eq!(shown(&environment.get(block, &name("b")).unwrap()), shown(&number(4.0)));
    let error = environment.assign_at(block, 0, &name("a"), number(5.0)).unwrap_err();
    assert_eq!(error.message, "Unable to assign to undefined variable a");
    assert_eq!(shown(&environment.get(0, &name("a")).unwrap()), shown(&number(3.0)));
    assert!(environment.assign_at(block, 2, &name("a"), number(5.0)).is_err());
    assert!(environment.get_at(block, 0, &name("a")).is_err());
}

#[test]
fn scopes_are_shared_by_index() {
    let mut environment = Environment::new();
    let closure = environment.child(0);
    environment.define(closure, "x".to_string(), number(0.0));
    let first_call = environment.child(closure);
    environment.assign(first_call, &name("x"), number(1.0)).unwrap();
    let second_call = environment.child(closure);
    assert_eq!(shown(&environment.get(second_call, &name("x")).unwrap()), shown(&number(1.0)));
}

#[test]
fn release_gives_up_the_last_scopes() {
    let mut environment = Environment::new();
    let a = environment.child(0);
    let b = environment.child(a);
    let c = environment.child(0);
    assert_eq!(environment.len(), 4);
    environment.release(a);
    assert_eq!(environment.len(), 2);
    let d = environment.child(a);
    assert_eq!((b, c, d), (2, 3, 2));
    environment.release(0);
    assert_eq!(environment.len(), 1);
    environment.release(0);
    assert_eq!(environment.len(), 1);
}

#[test]
fn release_keeps_a_scope_that_a_function_was_declared_in() {
    let mut environment = Environment::new();
    let a = environment.child(0);
    let b = environment.child(a);
    let c = environment.child(b);
    environment.define(b, "x".to_string(), number(1.0));
    environment.capture(b);
    environment.release(0);
    assert_eq!(environment.len(), 3);
    assert_eq!(shown(&environment.get(b, &name("x")).unwrap()), shown(&number(1.0)));
    assert_eq!(environment.parent(b), Some(a));
    assert_eq!(c, 3);
    environment.capture(0);
    environment.release(0);
    assert_eq!(environment.len(), 3);
}
