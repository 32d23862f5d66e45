//! What a step of the interpreter does: the states of a run, what each task
//! makes of a state, and what holds of every run.

use vstd::prelude::*;
use crate::common::{
    end_marker, equal_to_reading, missing_property, satisfies, Callable, Equality, Lexeme,
    LoxFunction, Object, Token, TokenType, Value,
};
use crate::environment::{
    ancestor, bound, capturing, chained, fresh, holder, lemma_inner_definition_leaves_outer,
    lemma_release_keeps_lookups, lemma_released, lemma_scopes_found, lookup, missing_at_depth,
    released, unassignable_at_depth, undefined_assignment, undefined_variable, Scope,
};
use crate::expr::{Expr, Literal};
use crate::interpreter::{Effect, Failure, Operation, Signal, Task, Waiting};
use crate::number::{negated, zero};
use crate::stmt::Stmt;
use crate::text::decimal_digits;

verus! {

/// The state of a run: the scopes, the functions and the instances made so
/// far, the distances that the resolver found, the scope in which the run
/// stands, what is left to do, the values at hand, and the answer that is
/// awaited.
pub struct State<'a> {
    pub scopes: Seq<Scope>,
    pub functions: Seq<LoxFunction<'a>>,
    pub instances: Seq<Object>,
    pub locals: Map<u64, usize>,
    pub environment: usize,
    pub tasks: Seq<Task<'a>>,
    pub values: Seq<Value>,
    pub waiting: Waiting,
}

/// The error of a state that no program leads to.
pub open spec fn broken_message() -> Seq<char> {
    "The interpreter met a state that no program leads to"@
}

/// The error of an answer that was not awaited.
pub open spec fn unexpected_answer() -> Seq<char> {
    "The host answered what the interpreter did not ask"@
}

/// The error of a number literal whose text is no number.
pub open spec fn invalid_number() -> Seq<char> {
    "Invalid number literal"@
}

/// The error of a logical expression whose operator is neither `and` nor `or`.
pub open spec fn invalid_logical(operator: Seq<char>) -> Seq<char> {
    "invalid operator "@ + operator + " in logical expression"@
}

/// The error of operands that the operator does not take.
pub open spec fn invalid_operands(operator: Seq<char>) -> Seq<char> {
    "invalid operands for "@ + operator
}

/// The error of a binary expression whose operator is none.
pub open spec fn invalid_binary(operator: Seq<char>) -> Seq<char> {
    "Invalid binary operator "@ + operator
}

/// The error of a unary operator that does not take its operand.
pub open spec fn invalid_unary(operator: Seq<char>) -> Seq<char> {
    "Unary operator "@ + operator + " not supported on this operand"@
}

/// The error of dividing by zero.
pub open spec fn division_by_zero() -> Seq<char> {
    "cannot divide by 0"@
}

/// The error of a call that passes `found` arguments where `expected` are due.
pub open spec fn wrong_arity(expected: nat, found: nat) -> Seq<char> {
    "Expected "@ + decimal_digits(expected) + " arguments, found "@ + decimal_digits(found)
}

/// The error of calling what is neither a function nor a class.
pub open spec fn not_callable() -> Seq<char> {
    "Only functions and classes may be called"@
}

/// The error of reading or writing a property of what is no instance.
pub open spec fn not_an_instance() -> Seq<char> {
    "Only instances have properties"@
}

/// The scope of a call: each parameter bound to its argument, in order, so
/// that of two parameters of one name the later one counts.
pub open spec fn arguments_bound(parameters: Seq<Token>, arguments: Seq<Value>, n: nat) -> Map<
    Seq<char>,
    Value,
>
    decreases n,
{
    if n == 0 {
        Map::empty()
    } else {
        arguments_bound(parameters, arguments, (n - 1) as nat).insert(
            parameters[n - 1].raw@,
            arguments[n - 1],
        )
    }
}

/// The first `n` fields of `left`, each followed by the field of that name of
/// `right`.
pub open spec fn field_pairs(left: Object, right: Object, n: nat) -> Seq<Value>
    decreases n,
{
    if n == 0 {
        Seq::empty()
    } else {
        field_pairs(left, right, (n - 1) as nat).push(left.values[n - 1]).push(
            right.field(left.names[n - 1]),
        )
    }
}

/// The tasks that evaluate the arguments of a call from the one at `from`
/// on: the task of the one at `from` is the last, and so the first to be taken.
pub open spec fn argument_tasks<'a>(arguments: &'a Vec<Expr>, from: nat) -> Seq<Task<'a>>
    decreases arguments@.len() - from,
{
    if from >= arguments@.len() {
        Seq::empty()
    } else {
        argument_tasks(arguments, from + 1).push(Task::Evaluate(&arguments@[from as int]))
    }
}

/// The index of the task that marks the nearest loop, if a loop is nearer
/// than any call.
pub open spec fn nearest_loop<'a>(tasks: Seq<Task<'a>>) -> Option<int>
    decreases tasks.len(),
{
    if tasks.len() == 0 {
        None
    } else {
        match tasks.last() {
            Task::Again { .. } => Some(tasks.len() - 1),
            Task::Called { .. } => None,
            _ => nearest_loop(tasks.drop_last()),
        }
    }
}

/// The index of the task that marks the nearest call, if there is one.
pub open spec fn nearest_call<'a>(tasks: Seq<Task<'a>>) -> Option<int>
    decreases tasks.len(),
{
    if tasks.len() == 0 {
        None
    } else {
        match tasks.last() {
            Task::Called { .. } => Some(tasks.len() - 1),
            _ => nearest_call(tasks.drop_last()),
        }
    }
}

/// The value that an answer of the host puts on the stack of values, if the
/// answer is the one awaited: nothing where nothing was asked, the number or
/// the text that was asked for, and `nil` where a text was read as a number
/// and is none.
pub open spec fn answer(waiting: Waiting, signal: Signal) -> Option<Option<Value>> {
    match (waiting, signal) {
        (Waiting::Nothing, Signal::Resume) => Some(None),
        (Waiting::Number, Signal::Number(bits)) => Some(Some(Value::Number(bits))),
        (Waiting::Reading, Signal::Reading(Some(bits))) => Some(Some(Value::Number(bits))),
        (Waiting::Reading, Signal::Reading(None)) => Some(Some(Value::Nil)),
        (Waiting::Text, Signal::Text(text)) => Some(Some(Value::Text(text))),
        _ => None,
    }
}

impl<'a> State<'a> {
    /// The run is abandoned with an error: nothing is left to do, no value is
    /// at hand, and the run is back in the global scope.
    pub open spec fn failed(self, token: Lexeme, message: Seq<char>) -> (State<'a>, Effect) {
        (
            State {
                scopes: released(self.scopes, 0),
                environment: 0,
                tasks: Seq::empty(),
                values: Seq::empty(),
                waiting: Waiting::Nothing,
                ..self
            },
            Effect::Fail(Failure { token, message }),
        )
    }

    /// The run is abandoned because the state is one that no program leads to.
    pub open spec fn broken(self) -> (State<'a>, Effect) {
        self.failed(end_marker(), broken_message())
    }

    /// The step is done, and asks nothing of the host.
    pub open spec fn proceed(self) -> (State<'a>, Effect) {
        (self, Effect::Continue)
    }

    /// The step asks `effect` of the host, and the run waits for the answer.
    pub open spec fn asking(self, waiting: Waiting, effect: Effect) -> (State<'a>, Effect) {
        (State { waiting, ..self }, effect)
    }

    /// The state with `task` on top of what is left to do.
    pub open spec fn with_task(self, task: Task<'a>) -> State<'a> {
        State { tasks: self.tasks.push(task), ..self }
    }

    /// The state with `value` on top of the values at hand.
    pub open spec fn with_value(self, value: Value) -> State<'a> {
        State { values: self.values.push(value), ..self }
    }

    /// The state without its upper `n` values.
    pub open spec fn without(self, n: int) -> State<'a> {
        State { values: self.values.take(self.values.len() - n), ..self }
    }

    /// The value `n` places below the top.
    pub open spec fn value(self, n: int) -> Value {
        self.values[self.values.len() - 1 - n]
    }

    /// The state with the run standing in `scope`.
    pub open spec fn in_scope(self, scope: usize) -> State<'a> {
        State { environment: scope, ..self }
    }

    /// The state with the run back in `scope`, which it left for a block or a
    /// call: the scopes made since are given up, but for those that a
    /// function keeps.
    pub open spec fn back_in(self, scope: usize) -> State<'a> {
        State { scopes: released(self.scopes, scope as int), environment: scope, ..self }
    }

    /// The state with `name` bound to `value` in the scope in which the run stands.
    pub open spec fn defining(self, name: Seq<char>, value: Value) -> State<'a> {
        State { scopes: bound(self.scopes, self.environment as int, name, value), ..self }
    }

    /// How a value is written, but for a number, which the host writes.
    pub open spec fn written(self, value: Value) -> Option<Seq<char>> {
        match value {
            Value::Number(_) => None,
            Value::Text(text) => Some(text),
            Value::Bool(b) => Some(
                if b {
                    "true"@
                } else {
                    "false"@
                },
            ),
            Value::Nil => Some("nil"@),
            Value::Function(Callable::Clock) => Some("function <0>"@),
            Value::Function(Callable::Declared(f)) => if f < self.functions.len() {
                Some("function <"@ + decimal_digits(self.functions[f as int].parameters@.len()) + ">"@)
            } else {
                None
            },
            Value::Class(name) => Some(name),
            Value::Instance(i) => if i < self.instances.len() {
                Some(self.instances[i as int].class + " instance"@)
            } else {
                None
            },
        }
    }

    /// What reading the variable `name` gives: its value at the distance that
    /// the resolver found for `name`, or its value in the global scope where
    /// the resolver found none.
    pub open spec fn read(self, name: &Token) -> Result<Value, Seq<char>> {
        if self.locals.contains_key(name.key()) {
            let distance = self.locals[name.key()];
            match ancestor(self.scopes, self.environment as int, distance as nat) {
                Some(at) if self.scopes[at].bindings.contains_key(name.raw@) => Ok(
                    self.scopes[at].bindings[name.raw@],
                ),
                _ => Err(missing_at_depth(name.raw@, distance as nat)),
            }
        } else {
            match lookup(self.scopes, 0, name.raw@) {
                Some(value) => Ok(value),
                None => Err(undefined_variable(name.raw@)),
            }
        }
    }

    /// The scopes after `value` was assigned to the variable `name`: at the
    /// distance that the resolver found for `name`, or in the global scope
    /// where it found none.
    pub open spec fn written_to(self, name: &Token, value: Value) -> Result<Seq<Scope>, Seq<char>> {
        if self.locals.contains_key(name.key()) {
            let distance = self.locals[name.key()];
            match ancestor(self.scopes, self.environment as int, distance as nat) {
                Some(at) if self.scopes[at].bindings.contains_key(name.raw@) => Ok(
                    bound(self.scopes, at, name.raw@, value),
                ),
                _ => Err(unassignable_at_depth(name.raw@)),
            }
        } else {
            match holder(self.scopes, 0, name.raw@) {
                Some(at) => Ok(bound(self.scopes, at, name.raw@, value)),
                None => Err(undefined_assignment(name.raw@)),
            }
        }
    }

    /// Runs the statements from `next` on: the one at `next` is executed first,
    /// the others are left to do.
    pub open spec fn run(self, statements: &'a Vec<Stmt>, next: usize) -> (State<'a>, Effect) {
        if next < statements@.len() {
            self.with_task(Task::Run { statements, next: (next + 1) as usize }).with_task(
                Task::Execute(&statements@[next as int]),
            ).proceed()
        } else {
            self.proceed()
        }
    }

    /// Executes a statement. A block is run in a new scope inside the present
    /// one, behind which the run goes back to the present one. A statement with an
    /// expression has the expression evaluated first. A function's and a class's
    /// name are bound at once: the function keeps the scope that it is declared
    /// in. A loop is marked on the stack of tasks, and `break` leaves it.
    pub open spec fn execute(self, statement: &'a Stmt) -> (State<'a>, Effect) {
        match statement {
            Stmt::Block { statements } => State {
                scopes: self.scopes.push(fresh(Some(self.environment))),
                environment: self.scopes.len() as usize,
                tasks: self.tasks.push(Task::Restore(self.environment)).push(
                    Task::Run { statements: &**statements, next: 0 },
                ),
                ..self
            }.proceed(),
            Stmt::Expression { expression } => self.with_task(Task::Discard).with_task(
                Task::Evaluate(expression),
            ).proceed(),
            Stmt::If { condition, .. } => self.with_task(Task::Branch(statement)).with_task(
                Task::Evaluate(condition),
            ).proceed(),
            Stmt::While { .. } => self.with_task(
                Task::Again {
                    statement,
                    scope: self.environment,
                    base: self.values.len() as usize,
                },
            ).proceed(),
            Stmt::Print { expression } => self.with_task(Task::Show).with_task(
                Task::Evaluate(expression),
            ).proceed(),
            Stmt::Var { name, initializer } => match initializer {
                Some(initializer) => self.with_task(Task::Declare(statement)).with_task(
                    Task::Evaluate(initializer),
                ).proceed(),
                None => self.defining(name.raw@, Value::Nil).proceed(),
            },
            Stmt::Function { name, parameters, body } => State {
                functions: self.functions.push(
                    LoxFunction { name, parameters, body: &**body, closure: self.environment },
                ),
                scopes: capturing(self.scopes, self.environment as int),
                ..self
            }.defining(
                name.raw@,
                Value::Function(Callable::Declared(self.functions.len() as usize)),
            ).proceed(),
            Stmt::Class { name, .. } => self.defining(name.raw@, Value::Class(name.raw@)).proceed(),
            Stmt::Return { return_value, .. } => match return_value {
                Some(value) => self.with_task(Task::Leave(statement)).with_task(
                    Task::Evaluate(value),
                ).proceed(),
                None => self.with_value(Value::Nil).with_task(Task::Leave(statement)).proceed(),
            },
            Stmt::Break { .. } => self.breaking(),
        }
    }

    /// Leaves the nearest loop: the tasks down to the one that marks the loop
    /// are dropped, and so are the values that the loop left; the run is back
    /// in the scope of the loop, and the loop's `finally` clause is still to
    /// run. Where no loop is nearer than any call, the program is one that the
    /// resolver rejects: the run is abandoned.
    pub open spec fn breaking(self) -> (State<'a>, Effect) {
        match nearest_loop(self.tasks) {
            Some(at) => match self.tasks[at] {
                Task::Again { statement, scope, base } => {
                    if scope < self.scopes.len() && base <= self.values.len() {
                        State {
                            tasks: self.tasks.take(at),
                            values: self.values.take(base as int),
                            ..self
                        }.back_in(scope).finally(statement).proceed()
                    } else {
                        self.broken()
                    }
                },
                _ => self.broken(),
            },
            None => self.broken(),
        }
    }

    /// The state with the `finally` clause of the loop still to run, if the
    /// loop has one.
    pub open spec fn finally(self, looping: &'a Stmt) -> State<'a> {
        match looping {
            Stmt::While { finally_branch: Some(clause), .. } => self.with_task(
                Task::Execute(&**clause),
            ),
            _ => self,
        }
    }

    /// Prints the uppermost value. A number is written by the host first.
    pub open spec fn show(self) -> (State<'a>, Effect) {
        if self.values.len() < 1 {
            self.broken()
        } else {
            match self.value(0) {
                Value::Number(bits) => self.without(1).with_task(Task::Show).asking(
                    Waiting::Text,
                    Effect::Render(bits),
                ),
                value => match self.written(value) {
                    Some(text) => (self.without(1), Effect::Print(text)),
                    None => self.broken(),
                },
            }
        }
    }

    /// Binds the variable of a declaration to the uppermost value.
    pub open spec fn declare(self, statement: &'a Stmt) -> (State<'a>, Effect) {
        if self.values.len() < 1 {
            self.broken()
        } else {
            match statement {
                Stmt::Var { name, .. } => self.without(1).defining(name.raw@, self.value(0)).proceed(),
                _ => self.broken(),
            }
        }
    }

    /// Takes the branch of an `if` that the uppermost value selects.
    pub open spec fn branch(self, statement: &'a Stmt) -> (State<'a>, Effect) {
        if self.values.len() < 1 {
            self.broken()
        } else {
            match statement {
                Stmt::If { then_branch, else_branch, .. } => if self.value(0).truthy() {
                    self.without(1).with_task(Task::Execute(&**then_branch)).proceed()
                } else {
                    match else_branch {
                        Some(other) => self.without(1).with_task(Task::Execute(&**other)).proceed(),
                        None => self.without(1).proceed(),
                    }
                },
                _ => self.broken(),
            }
        }
    }

    /// Evaluates the condition of a loop, and leaves the test of it to do.
    pub open spec fn again(self, statement: &'a Stmt, scope: usize, base: usize) -> (
        State<'a>,
        Effect,
    ) {
        match statement {
            Stmt::While { condition, .. } => self.with_task(
                Task::Test { statement, scope, base },
            ).with_task(Task::Evaluate(condition)).proceed(),
            _ => self.broken(),
        }
    }

    /// Runs the body of a loop once more if the uppermost value is truthy,
    /// with the loop marked below it; else ends the loop: its `finally` clause is
    /// left to do.
    pub open spec fn test(self, statement: &'a Stmt, scope: usize, base: usize) -> (
        State<'a>,
        Effect,
    ) {
        if self.values.len() < 1 {
            self.broken()
        } else {
            match statement {
                Stmt::While { then_branch, .. } => if self.value(0).truthy() {
                    self.without(1).with_task(Task::Again { statement, scope, base }).with_task(
                        Task::Execute(&**then_branch),
                    ).proceed()
                } else {
                    self.without(1).finally(statement).proceed()
                },
                _ => self.broken(),
            }
        }
    }

    /// Goes back to `scope` at the end of a block.
    pub open spec fn restore(self, scope: usize) -> (State<'a>, Effect) {
        if scope < self.scopes.len() {
            self.back_in(scope).proceed()
        } else {
            self.broken()
        }
    }

    /// Leaves the nearest call with `value`: the tasks down to the one that
    /// marks the call are dropped, and so are the values that the call left;
    /// the run is back in the scope of the call, and `value` is the call's.
    /// Where there is no call, the program is one that the resolver rejects:
    /// the run is abandoned.
    pub open spec fn returning(self, value: Value) -> (State<'a>, Effect) {
        match nearest_call(self.tasks) {
            Some(at) => match self.tasks[at] {
                Task::Called { scope, base } => {
                    if scope < self.scopes.len() && base <= self.values.len() {
                        State {
                            tasks: self.tasks.take(at),
                            values: self.values.take(base as int).push(value),
                            ..self
                        }.back_in(scope).proceed()
                    } else {
                        self.broken()
                    }
                },
                _ => self.broken(),
            },
            None => self.broken(),
        }
    }

    /// Returns the uppermost value from the nearest call.
    pub open spec fn leave(self, statement: &'a Stmt) -> (State<'a>, Effect) {
        if self.values.len() < 1 {
            self.broken()
        } else {
            match statement {
                Stmt::Return { .. } => self.without(1).returning(self.value(0)),
                _ => self.broken(),
            }
        }
    }

    /// Ends a call whose body ran to its end: the call gives `nil`, and the run
    /// is back in the scope of the call.
    pub open spec fn called(self, scope: usize, base: usize) -> (State<'a>, Effect) {
        if scope < self.scopes.len() && base <= self.values.len() {
            State { values: self.values.take(base as int).push(Value::Nil), ..self }.back_in(
                scope,
            ).proceed()
        } else {
            self.broken()
        }
    }

    /// Evaluates an expression. A literal is its value, but for a number, whose
    /// text the host reads. A variable is read. Of every other expression the
    /// operands are evaluated first, from left to right, and what is made of their
    /// values is left to do; `and` and `or` evaluate their left operand only.
    pub open spec fn evaluate(self, expression: &'a Expr) -> (State<'a>, Effect) {
        match expression {
            Expr::Literal { value } => match value {
                Literal::Number(text) => self.with_task(Task::Numeral(expression)).asking(
                    Waiting::Reading,
                    Effect::Read(text@),
                ),
                Literal::Strang(text) => self.with_value(Value::Text(text@)).proceed(),
                Literal::Bool(b) => self.with_value(Value::Bool(*b)).proceed(),
                Literal::Nil => self.with_value(Value::Nil).proceed(),
            },
            Expr::Variable { name } => match self.read(name) {
                Ok(value) => self.with_value(value).proceed(),
                Err(message) => self.failed(name@, message),
            },
            Expr::Assign { value, .. } => self.with_task(Task::Assign(expression)).with_task(
                Task::Evaluate(&**value),
            ).proceed(),
            Expr::Logical { left, .. } => self.with_task(Task::Decide(expression)).with_task(
                Task::Evaluate(&**left),
            ).proceed(),
            Expr::Binary { left, right, .. } => self.with_task(Task::Apply(expression)).with_task(
                Task::Evaluate(&**right),
            ).with_task(Task::Evaluate(&**left)).proceed(),
            Expr::Unary { right, .. } => self.with_task(Task::Negate(expression)).with_task(
                Task::Evaluate(&**right),
            ).proceed(),
            Expr::Call { callee, arguments, .. } => State {
                tasks: self.tasks.push(Task::Invoke(expression)) + argument_tasks(&**arguments, 0),
                ..self
            }.with_task(Task::Evaluate(&**callee)).proceed(),
            Expr::Get { object, .. } => self.with_task(Task::Fetch(expression)).with_task(
                Task::Evaluate(&**object),
            ).proceed(),
            Expr::SetField { object, value, .. } => self.with_task(Task::Store(expression)).with_task(
                Task::Evaluate(&**value),
            ).with_task(Task::Evaluate(&**object)).proceed(),
            Expr::Grouping { expression: inner } => self.with_task(Task::Evaluate(&**inner)).proceed(),
        }
    }

    /// Takes what the host read for a number literal: a text that is no number
    /// is an error.
    pub open spec fn numeral(self, expression: &'a Expr) -> (State<'a>, Effect) {
        if self.values.len() < 1 {
            self.broken()
        } else {
            match self.value(0) {
                Value::Number(_) => self.proceed(),
                _ => self.failed(end_marker(), invalid_number()),
            }
        }
    }

    /// Assigns the uppermost value, which stays for the value of the assignment.
    pub open spec fn assign(self, expression: &'a Expr) -> (State<'a>, Effect) {
        if self.values.len() < 1 {
            self.broken()
        } else {
            match expression {
                Expr::Assign { name, .. } => match self.written_to(name, self.value(0)) {
                    Ok(scopes) => State { scopes, ..self }.proceed(),
                    Err(message) => self.failed(name@, message),
                },
                _ => self.broken(),
            }
        }
    }

    /// Decides `and` and `or` on the left operand: `or` is `true` if it is
    /// truthy, `and` is `false` if it is not, and else each is its right operand.
    pub open spec fn decide(self, expression: &'a Expr) -> (State<'a>, Effect) {
        if self.values.len() < 1 {
            self.broken()
        } else {
            match expression {
                Expr::Logical { operator, right, .. } => match operator.token_type {
                    TokenType::Or => if self.value(0).truthy() {
                        self.without(1).with_value(Value::Bool(true)).proceed()
                    } else {
                        self.without(1).with_task(Task::Evaluate(&**right)).proceed()
                    },
                    TokenType::And => if !self.value(0).truthy() {
                        self.without(1).with_value(Value::Bool(false)).proceed()
                    } else {
                        self.without(1).with_task(Task::Evaluate(&**right)).proceed()
                    },
                    _ => self.failed(operator@, invalid_logical(operator.raw@)),
                },
                _ => self.broken(),
            }
        }
    }

    /// `-` negates a number, and `!` any value as a condition.
    pub open spec fn negate(self, expression: &'a Expr) -> (State<'a>, Effect) {
        if self.values.len() < 1 {
            self.broken()
        } else {
            match expression {
                Expr::Unary { operator, .. } => match operator.token_type {
                    TokenType::Minus => match self.value(0) {
                        Value::Number(bits) => self.without(1).with_value(
                            Value::Number(negated(bits)),
                        ).proceed(),
                        _ => self.failed(operator@, invalid_unary(operator.raw@)),
                    },
                    TokenType::Bang => self.without(1).with_value(
                        Value::Bool(!self.value(0).truthy()),
                    ).proceed(),
                    _ => self.failed(operator@, invalid_unary(operator.raw@)),
                },
                _ => self.broken(),
            }
        }
    }

    /// `left + right`: the sum of two numbers, which the host computes, or
    /// the two operands written one behind the other where one of them is a
    /// string; the host writes an operand that is a number.
    pub open spec fn plus(self, left: Value, right: Value, operator: &Token) -> (State<'a>, Effect) {
        match (left, right) {
            (Value::Number(a), Value::Number(b)) => self.asking(
                Waiting::Number,
                Effect::Arithmetic { operation: Operation::Add, left: a, right: b },
            ),
            (Value::Text(text), Value::Number(b)) => self.with_value(Value::Text(text)).with_task(
                Task::Concat,
            ).asking(Waiting::Text, Effect::Render(b)),
            (Value::Text(text), other) => match self.written(other) {
                Some(written) => self.with_value(Value::Text(text + written)).proceed(),
                None => self.broken(),
            },
            (Value::Number(a), Value::Text(text)) => self.with_value(Value::Text(text)).with_task(
                Task::ConcatReversed,
            ).asking(Waiting::Text, Effect::Render(a)),
            (other, Value::Text(text)) => match self.written(other) {
                Some(written) => self.with_value(Value::Text(written + text)).proceed(),
                None => self.broken(),
            },
            _ => self.failed(operator@, invalid_operands(operator.raw@)),
        }
    }

    /// `left - right`, `left * right` and `left / right`, which the host
    /// computes on two numbers; to divide by zero is an error.
    pub open spec fn arithmetic(
        self,
        operation: Operation,
        left: Value,
        right: Value,
        operator: &Token,
    ) -> (State<'a>, Effect) {
        match (left, right) {
            (Value::Number(a), Value::Number(b)) => if operation == Operation::Divide && zero(b) {
                self.failed(operator@, division_by_zero())
            } else {
                self.asking(Waiting::Number, Effect::Arithmetic { operation, left: a, right: b })
            },
            _ => self.failed(operator@, invalid_operands(operator.raw@)),
        }
    }

    /// Applies a binary operator to the upper two values, the lower of which is
    /// its left operand. Comparisons hold of values as they are ordered; equality
    /// is left to do.
    pub open spec fn apply(self, expression: &'a Expr) -> (State<'a>, Effect) {
        if self.values.len() < 2 {
            self.broken()
        } else {
            let left = self.value(1);
            let right = self.value(0);
            let rest = self.without(2);
            match expression {
                Expr::Binary { operator, .. } => match operator.token_type {
                    TokenType::Plus => rest.plus(left, right, operator),
                    TokenType::Minus => rest.arithmetic(Operation::Subtract, left, right, operator),
                    TokenType::Star => rest.arithmetic(Operation::Multiply, left, right, operator),
                    TokenType::Slash => rest.arithmetic(Operation::Divide, left, right, operator),
                    TokenType::Greater | TokenType::GreaterEqual | TokenType::Less
                    | TokenType::LessEqual => rest.with_value(
                        Value::Bool(satisfies(operator.token_type, left.order(right))),
                    ).proceed(),
                    TokenType::EqualEqual => self.with_task(Task::Equal).proceed(),
                    TokenType::BangEqual => self.with_task(Task::Not).with_task(Task::Equal).proceed(),
                    _ => self.failed(operator@, invalid_binary(operator.raw@)),
                },
                _ => self.broken(),
            }
        }
    }

    /// Whether two instances can only be equal if their fields are: they are
    /// of one class and have the same field names.
    pub open spec fn comparable(left: Object, right: Object) -> bool {
        &&& left.class == right.class
        &&& left.names.len() == right.names.len()
        &&& forall|k: int| 0 <= k < left.names.len() ==> right.has(#[trigger] left.names[k])
    }

    /// Decides whether the upper two values are equal. A number against a string
    /// has the host read the string. Two instances of one class with the same
    /// field names are equal if their fields are: the fields' values are put on
    /// the values at hand in pairs, to be compared.
    pub open spec fn equal(self) -> (State<'a>, Effect) {
        if self.values.len() < 2 {
            self.broken()
        } else {
            let rest = self.without(2);
            match self.value(1).equality(self.value(0)) {
                Equality::Decided(b) => rest.with_value(Value::Bool(b)).proceed(),
                Equality::Reading { number, text } => rest.with_value(Value::Number(number)).with_task(
                    Task::EqualReading,
                ).asking(Waiting::Reading, Effect::Read(text)),
                Equality::Instances { left, right } => {
                    if left < self.instances.len() && right < self.instances.len() {
                        let a = self.instances[left as int];
                        let b = self.instances[right as int];
                        if Self::comparable(a, b) {
                            State {
                                values: (rest.values + field_pairs(a, b, a.names.len())).push(
                                    Value::Bool(true),
                                ),
                                ..rest
                            }.with_task(Task::EqualAll(a.names.len() as usize)).proceed()
                        } else {
                            rest.with_value(Value::Bool(false)).proceed()
                        }
                    } else {
                        self.broken()
                    }
                },
            }
        }
    }

    /// Decides whether `pairs` pairs of values are equal, given on top of them
    /// whether all pairs before were: the uppermost pair is compared next, or
    /// dropped if a pair before was unequal.
    pub open spec fn equal_all(self, pairs: usize) -> (State<'a>, Effect) {
        if self.values.len() < 1 {
            self.broken()
        } else {
            match self.value(0) {
                Value::Bool(so_far) => {
                    if pairs == 0 {
                        self.proceed()
                    } else if self.values.len() < 3 {
                        self.broken()
                    } else if so_far {
                        self.without(1).with_task(Task::EqualAll((pairs - 1) as usize)).with_task(
                            Task::Equal,
                        ).proceed()
                    } else {
                        self.without(3).with_value(Value::Bool(false)).with_task(
                            Task::EqualAll((pairs - 1) as usize),
                        ).proceed()
                    }
                },
                _ => self.broken(),
            }
        }
    }

    /// Decides whether a number equals what a string was read as.
    pub open spec fn equal_reading(self) -> (State<'a>, Effect) {
        if self.values.len() < 2 {
            self.broken()
        } else {
            match (self.value(1), self.value(0)) {
                (Value::Number(number), Value::Number(read)) => self.without(2).with_value(
                    Value::Bool(equal_to_reading(number, Some(read))),
                ).proceed(),
                (Value::Number(number), Value::Nil) => self.without(2).with_value(
                    Value::Bool(equal_to_reading(number, None)),
                ).proceed(),
                _ => self.broken(),
            }
        }
    }

    /// Negates the uppermost value, a boolean.
    pub open spec fn not(self) -> (State<'a>, Effect) {
        if self.values.len() < 1 {
            self.broken()
        } else {
            match self.value(0) {
                Value::Bool(b) => self.without(1).with_value(Value::Bool(!b)).proceed(),
                _ => self.broken(),
            }
        }
    }

    /// Joins the upper two values, which are texts.
    pub open spec fn concat(self, reversed: bool) -> (State<'a>, Effect) {
        if self.values.len() < 2 {
            self.broken()
        } else {
            match (self.value(1), self.value(0)) {
                (Value::Text(lower), Value::Text(upper)) => self.without(2).with_value(
                    Value::Text(
                        if reversed {
                            upper + lower
                        } else {
                            lower + upper
                        },
                    ),
                ).proceed(),
                _ => self.broken(),
            }
        }
    }

    /// Calls the callee with the arguments above it. The clock is answered by
    /// the host. A declared function's body is run in a new scope inside the scope
    /// that the function was declared in, with the parameters bound to the
    /// arguments; the call is marked on the stack of tasks, and `return` leaves
    /// it. A class makes a new instance without fields. Another number of
    /// arguments than the callee takes is an error; so is a callee of another kind.
    pub open spec fn invoke(self, expression: &'a Expr) -> (State<'a>, Effect) {
        match expression {
            Expr::Call { paren, arguments, .. } => {
                let n = arguments@.len();
                if self.values.len() < n + 1 {
                    self.broken()
                } else {
                    let passed = self.values.skip(self.values.len() - n);
                    let rest = self.without(n + 1 as int);
                    match self.value(n as int) {
                        Value::Function(Callable::Clock) => if n != 0 {
                            self.failed(paren@, wrong_arity(0, n))
                        } else {
                            rest.asking(Waiting::Number, Effect::Clock)
                        },
                        Value::Function(Callable::Declared(f)) => if f < self.functions.len() {
                            let function = self.functions[f as int];
                            if n != function.parameters@.len() {
                                self.failed(paren@, wrong_arity(function.parameters@.len(), n))
                            } else if function.closure < self.scopes.len() {
                                State {
                                    scopes: self.scopes.push(
                                        Scope {
                                            bindings: arguments_bound(function.parameters@, passed, n),
                                            parent: Some(function.closure),
                                            captured: false,
                                        },
                                    ),
                                    environment: self.scopes.len() as usize,
                                    tasks: self.tasks.push(
                                        Task::Called {
                                            scope: self.environment,
                                            base: rest.values.len() as usize,
                                        },
                                    ).push(Task::Run { statements: function.body, next: 0 }),
                                    ..rest
                                }.proceed()
                            } else {
                                self.broken()
                            }
                        } else {
                            self.broken()
                        },
                        Value::Class(name) => if n != 0 {
                            self.failed(paren@, wrong_arity(0, n))
                        } else {
                            State {
                                instances: self.instances.push(
                                    Object { class: name, names: Seq::empty(), values: Seq::empty() },
                                ),
                                ..rest
                            }.with_value(Value::Instance(self.instances.len() as usize)).proceed()
                        },
                        _ => self.failed(paren@, not_callable()),
                    }
                }
            },
            _ => self.broken(),
        }
    }

    /// Reads a property of the uppermost value, an instance.
    pub open spec fn fetch(self, expression: &'a Expr) -> (State<'a>, Effect) {
        if self.values.len() < 1 {
            self.broken()
        } else {
            match expression {
                Expr::Get { name, .. } => match self.value(0) {
                    Value::Instance(i) => if i < self.instances.len() {
                        let object = self.instances[i as int];
                        if object.has(name.raw@) {
                            self.without(1).with_value(object.field(name.raw@)).proceed()
                        } else {
                            self.failed(name@, missing_property(name.raw@, object.class))
                        }
                    } else {
                        self.broken()
                    },
                    _ => self.failed(name@, not_an_instance()),
                },
                _ => self.broken(),
            }
        }
    }

    /// Writes a property of an instance: the upper value to the property of the
    /// lower one. The value stays for the value of the assignment.
    pub open spec fn store(self, expression: &'a Expr) -> (State<'a>, Effect) {
        if self.values.len() < 2 {
            self.broken()
        } else {
            match expression {
                Expr::SetField { name, .. } => match self.value(1) {
                    Value::Instance(i) => if i < self.instances.len() {
                        State {
                            instances: self.instances.update(
                                i as int,
                                self.instances[i as int].with(name.raw@, self.value(0)),
                            ),
                            ..self.without(2)
                        }.with_value(self.value(0)).proceed()
                    } else {
                        self.broken()
                    },
                    _ => self.failed(name@, not_an_instance()),
                },
                _ => self.broken(),
            }
        }
    }

    /// What `task` does to the state that is left when it was taken.
    pub open spec fn perform(self, task: Task<'a>) -> (State<'a>, Effect) {
        match task {
            Task::Run { statements, next } => self.run(statements, next),
            Task::Execute(statement) => self.execute(statement),
            Task::Evaluate(expression) => self.evaluate(expression),
            Task::Discard => if self.values.len() < 1 {
                self.broken()
            } else {
                self.without(1).proceed()
            },
            Task::Show => self.show(),
            Task::Declare(statement) => self.declare(statement),
            Task::Branch(statement) => self.branch(statement),
            Task::Again { statement, scope, base } => self.again(statement, scope, base),
            Task::Test { statement, scope, base } => self.test(statement, scope, base),
            Task::Restore(scope) => self.restore(scope),
            Task::Leave(statement) => self.leave(statement),
            Task::Called { scope, base } => self.called(scope, base),
            Task::Numeral(expression) => self.numeral(expression),
            Task::Assign(expression) => self.assign(expression),
            Task::Decide(expression) => self.decide(expression),
            Task::Apply(expression) => self.apply(expression),
            Task::Negate(expression) => self.negate(expression),
            Task::Invoke(expression) => self.invoke(expression),
            Task::Fetch(expression) => self.fetch(expression),
            Task::Store(expression) => self.store(expression),
            Task::Equal => self.equal(),
            Task::EqualAll(pairs) => self.equal_all(pairs),
            Task::EqualReading => self.equal_reading(),
            Task::Not => self.not(),
            Task::Concat => self.concat(false),
            Task::ConcatReversed => self.concat(true),
        }
    }

    /// One step of the run. The answer of the host, if one was awaited, goes
    /// on the stack of values; then the uppermost task is taken and done.
    /// Where no task is left the run is done; an answer that was not awaited
    /// abandons the run.
    pub open spec fn step(self, signal: Signal) -> (State<'a>, Effect) {
        match answer(self.waiting, signal) {
            None => self.failed(end_marker(), unexpected_answer()),
            Some(answered) => {
                let ready = State {
                    values: match answered {
                        Some(value) => self.values.push(value),
                        None => self.values,
                    },
                    waiting: Waiting::Nothing,
                    ..self
                };
                if ready.tasks.len() == 0 {
                    (ready, Effect::Done)
                } else {
                    State { tasks: ready.tasks.drop_last(), ..ready }.perform(ready.tasks.last())
                }
            },
        }
    }
}

impl<'a> State<'a> {
    /// Steps of the run, up to the first that asks something of the host or
    /// ends the run, and up to `limit` steps beside the first.
    pub open spec fn advance(self, signal: Signal, limit: nat) -> (State<'a>, Effect)
        decreases limit,
    {
        let (next, effect) = self.step(signal);
        if limit > 0 && effect is Continue {
            next.advance(Signal::Resume, (limit - 1) as nat)
        } else {
            (next, effect)
        }
    }
}

/// A run that failed is over: the failure leaves nothing to do, so that the
/// next step, and every step after it, finds the run done and asks for
/// nothing, least of all to print.
pub proof fn lemma_failure_halts<'a>(state: State<'a>, token: Lexeme, message: Seq<char>)
    ensures
        state.failed(token, message).1 is Fail,
        state.failed(token, message).0.tasks.len() == 0,
        state.failed(token, message).0.step(Signal::Resume) == (
            state.failed(token, message).0,
            Effect::Done,
        ),
{
    let halted = state.failed(token, message).0;
    assert(halted.values =~= halted.values);
}

/// To divide by zero is a runtime error, whatever is divided: the run fails
/// at the operator, and is over.
pub proof fn lemma_division_by_zero<'a>(state: State<'a>, left: u32, right: u32, operator: &Token)
    requires
        zero(right),
    ensures
        state.arithmetic(
            Operation::Divide,
            Value::Number(left),
            Value::Number(right),
            operator,
        ) == state.failed(operator@, division_by_zero()),
        state.arithmetic(
            Operation::Divide,
            Value::Number(left),
            Value::Number(right),
            operator,
        ).0.step(Signal::Resume).1 == Effect::Done,
{
    lemma_failure_halts(state, operator@, division_by_zero());
}

/// To call a declared function with another number of arguments than it has
/// parameters is a runtime error that names both numbers.
pub proof fn lemma_wrong_arity<'a>(state: State<'a>, call: &'a Expr, function: usize)
    requires
        call is Call,
        state.values.len() > call->arguments@.len(),
        state.value(call->arguments@.len() as int) == Value::Function(Callable::Declared(function)),
        function < state.functions.len(),
        state.functions[function as int].parameters@.len() != call->arguments@.len(),
    ensures
        state.invoke(call) == state.failed(
            call->paren@,
            wrong_arity(
                state.functions[function as int].parameters@.len(),
                call->arguments@.len(),
            ),
        ),
{
}

/// `break` leaves the nearest loop and no other: the tasks below the one
/// that marks the nearest loop stay as they are, and with them the marks of
/// the loops around it.
pub proof fn lemma_break_leaves_nearest_loop<'a>(state: State<'a>, below: int)
    requires
        nearest_loop(state.tasks) is Some,
        0 <= below < nearest_loop(state.tasks)->0,
        state.breaking().1 == Effect::Continue,
    ensures
        nearest_loop(state.tasks)->0 < state.tasks.len(),
        state.tasks[nearest_loop(state.tasks)->0] is Again,
        state.breaking().0.tasks.len() > below,
        state.breaking().0.tasks[below] == state.tasks[below],
        forall|above: int|
            nearest_loop(state.tasks)->0 < above < state.tasks.len() ==> !(
            #[trigger] state.tasks[above] is Again),
{
    lemma_nearest_loop(state.tasks);
}

/// The task that marks the nearest loop is one that marks a loop, and none
/// above it does.
pub proof fn lemma_nearest_loop<'a>(tasks: Seq<Task<'a>>)
    ensures
        nearest_loop(tasks) matches Some(at) ==> 0 <= at < tasks.len() && tasks[at] is Again
            && forall|above: int| at < above < tasks.len() ==> !(#[trigger] tasks[above] is Again),
    decreases tasks.len(),
{
    if tasks.len() > 0 {
        lemma_nearest_loop(tasks.drop_last());
        match tasks.last() {
            Task::Again { .. } => {},
            Task::Called { .. } => {},
            _ => {
                match nearest_loop(tasks.drop_last()) {
                    Some(at) => {
                        assert(tasks.drop_last()[at] == tasks[at]);
                        assert forall|above: int| at < above < tasks.len() implies !(
                        #[trigger] tasks[above] is Again) by {
                            if above < tasks.len() - 1 {
                                assert(tasks.drop_last()[above] == tasks[above]);
                            }
                        }
                    },
                    None => {},
                }
            },
        }
    }
}

/// The `finally` clause of a loop runs once when the loop ends, whether its
/// condition ended it or `break`: either way the clause is the one thing left
/// to do that was not before, and the loop's mark is gone from the tasks, so
/// that the loop cannot end a second time.
pub proof fn lemma_finally_runs_once<'a>(
    state: State<'a>,
    looping: &'a Stmt,
    scope: usize,
    base: usize,
)
    requires
        looping is While,
        looping->finally_branch is Some,
    ensures
        state.values.len() >= 1 && !state.value(0).truthy() ==> state.test(looping, scope, base)
            == state.without(1).with_task(
            Task::Execute(&*looping->finally_branch->0),
        ).proceed(),
        (nearest_loop(state.tasks) matches Some(at) && state.tasks[at] == (Task::Again {
            statement: looping,
            scope,
            base,
        }) && scope < state.scopes.len() && base <= state.values.len())
            ==> state.breaking().0.tasks == state.tasks.take(nearest_loop(state.tasks)->0).push(
            Task::Execute(&*looping->finally_branch->0),
        ),
{
}

/// A number literal evaluates to what its text reads as: the interpreter
/// asks its host to read the text, and the number that the host answers is
/// the value of the literal.
pub proof fn lemma_number_literal<'a>(state: State<'a>, literal: &'a Expr, bits: u32)
    requires
        literal matches Expr::Literal { value: Literal::Number(_) },
    ensures
        literal matches Expr::Literal { value: Literal::Number(text) } && state.evaluate(literal).1
            == Effect::Read(text@),
        state.evaluate(literal).0.step(Signal::Reading(Some(bits))) == (
            State { waiting: Waiting::Nothing, ..state.with_value(Value::Number(bits)) },
            Effect::Continue,
        ),
{
    let asked = state.evaluate(literal).0;
    let answered = State {
        values: asked.values.push(Value::Number(bits)),
        waiting: Waiting::Nothing,
        ..asked
    };
    assert(asked.tasks.drop_last() =~= state.tasks);
    assert(asked.tasks.last() == Task::Numeral(literal));
}

/// The scope that a task is to go back to, if it is to go back to one.
pub open spec fn held<'a>(task: Task<'a>) -> Option<usize> {
    match task {
        Task::Restore(scope) => Some(scope),
        Task::Again { scope, .. } => Some(scope),
        Task::Test { scope, .. } => Some(scope),
        Task::Called { scope, .. } => Some(scope),
        _ => None,
    }
}

impl<'a> State<'a> {
    /// Whatever refers to a scope refers to one that is there: the run stands
    /// in a scope; the scope that a function was declared in is there, and
    /// marked as one that a function keeps; and the scopes that the tasks are
    /// to go back to are there, each made no later than those that the tasks
    /// above it go back to, and none later than the scope in which the run
    /// stands.
    pub open spec fn sound(self) -> bool {
        &&& self.environment < self.scopes.len()
        &&& forall|f: int|
            0 <= f < self.functions.len() ==> (#[trigger] self.functions[f]).closure
                < self.scopes.len() && self.scopes[self.functions[f].closure as int].captured
        &&& forall|i: int|
            0 <= i < self.tasks.len() ==> (held(#[trigger] self.tasks[i]) matches Some(scope)
                ==> scope <= self.environment)
        &&& forall|i: int, j: int|
            0 <= i < j < self.tasks.len() ==> (held(#[trigger] self.tasks[i]) matches Some(lower)
                ==> (held(#[trigger] self.tasks[j]) matches Some(upper) ==> lower <= upper))
    }

    /// The state in which a task finds the run: the task itself is taken.
    pub open spec fn taken(self) -> State<'a> {
        State { tasks: self.tasks.drop_last(), ..self }
    }
}

/// A new interpreter is sound.
pub proof fn lemma_initial_sound()
    ensures
        crate::interpreter::initial().sound(),
{
}

/// A step keeps the run sound: no scope is given up that the run, a function
/// or a task still refers to. (The scopes are no more than can be counted.)
pub proof fn lemma_step_sound<'a>(state: State<'a>, signal: Signal)
    requires
        state.sound(),
        state.scopes.len() <= usize::MAX,
    ensures
        state.step(signal).0.sound(),
{
    lemma_released(state.scopes, 0);
    match answer(state.waiting, signal) {
        None => {},
        Some(answered) => {
            let ready = State {
                values: match answered {
                    Some(value) => state.values.push(value),
                    None => state.values,
                },
                waiting: Waiting::Nothing,
                ..state
            };
            if ready.tasks.len() > 0 {
                lemma_perform_sound(ready);
            }
        },
    }
}

/// Whether a step from `before` to `after` left the scopes, the functions
/// and the place of the run as they were, but for what is bound in the
/// scopes, and put on the tasks none that goes back to a scope.
pub open spec fn calm<'a>(before: State<'a>, after: State<'a>) -> bool {
    &&& after.environment == before.environment
    &&& after.functions == before.functions
    &&& after.scopes.len() == before.scopes.len()
    &&& forall|i: int|
        0 <= i < before.scopes.len() ==> (#[trigger] after.scopes[i]).captured
            == before.scopes[i].captured
    &&& after.tasks.len() >= before.tasks.len()
    &&& forall|i: int| 0 <= i < before.tasks.len() ==> #[trigger] after.tasks[i] == before.tasks[i]
    &&& forall|i: int|
        before.tasks.len() <= i < after.tasks.len() ==> held(#[trigger] after.tasks[i]) is None
}

/// Whether a step from `before` to `after` abandoned the run.
pub open spec fn halted<'a>(before: State<'a>, after: State<'a>) -> bool {
    &&& after.environment == 0
    &&& after.functions == before.functions
    &&& after.scopes == released(before.scopes, 0)
    &&& after.tasks.len() == 0
}

/// A step that is calm, and one that abandons the run, keep the run sound.
proof fn lemma_calm_sound<'a>(before: State<'a>, after: State<'a>)
    requires
        before.sound(),
        calm(before, after) || halted(before, after),
    ensures
        after.sound(),
{
    lemma_released(before.scopes, 0);
    if calm(before, after) {
        assert forall|f: int| 0 <= f < after.functions.len() implies (#[trigger] after.functions[f]).closure
            < after.scopes.len() && after.scopes[after.functions[f].closure as int].captured by {
            assert(before.functions[f].closure < before.scopes.len());
        }
        assert forall|i: int, j: int| 0 <= i < j < after.tasks.len() implies (held(
            #[trigger] after.tasks[i],
        ) matches Some(lower) ==> (held(#[trigger] after.tasks[j]) matches Some(upper) ==> lower
            <= upper)) by {
            if j < before.tasks.len() {
                assert(after.tasks[i] == before.tasks[i]);
                assert(after.tasks[j] == before.tasks[j]);
            }
        }
        assert forall|i: int| 0 <= i < after.tasks.len() implies (held(
            #[trigger] after.tasks[i],
        ) matches Some(scope) ==> scope <= after.environment) by {
            if i < before.tasks.len() {
                assert(after.tasks[i] == before.tasks[i]);
            }
        }
    } else {
        assert forall|f: int| 0 <= f < after.functions.len() implies (#[trigger] after.functions[f]).closure
            < after.scopes.len() && after.scopes[after.functions[f].closure as int].captured by {
            assert(before.functions[f].closure < before.scopes.len());
            assert(before.scopes[before.functions[f].closure as int].captured);
        }
    }
}

/// The run goes back to a scope that a task held which was taken with the
/// tasks above it: the run stays sound.
proof fn lemma_back_sound<'a>(state: State<'a>, at: int, values: Seq<Value>)
    requires
        state.sound(),
        0 <= at < state.tasks.len(),
        held(state.tasks[at]) is Some,
        held(state.tasks[at])->0 < state.scopes.len(),
    ensures
        (State { tasks: state.tasks.take(at), values, ..state }).back_in(
            held(state.tasks[at])->0,
        ).sound(),
{
    let scope = held(state.tasks[at])->0;
    let after = (State { tasks: state.tasks.take(at), values, ..state }).back_in(scope);
    lemma_released(state.scopes, scope as int);
    assert forall|f: int| 0 <= f < after.functions.len() implies (#[trigger] after.functions[f]).closure
        < after.scopes.len() && after.scopes[after.functions[f].closure as int].captured by {
        assert(state.functions[f].closure < state.scopes.len());
        assert(state.scopes[state.functions[f].closure as int].captured);
    }
    assert forall|i: int| 0 <= i < after.tasks.len() implies (held(
        #[trigger] after.tasks[i],
    ) matches Some(lower) ==> lower <= after.environment) by {
        assert(after.tasks[i] == state.tasks[i]);
    }
    assert forall|i: int, j: int| 0 <= i < j < after.tasks.len() implies (held(
        #[trigger] after.tasks[i],
    ) matches Some(lower) ==> (held(#[trigger] after.tasks[j]) matches Some(upper) ==> lower
        <= upper)) by {
        assert(after.tasks[i] == state.tasks[i]);
        assert(after.tasks[j] == state.tasks[j]);
    }
}

/// A task on top of the others keeps the run sound if it goes back to no
/// scope, or to one that is no later than the one in which the run stands and
/// no earlier than those that the other tasks go back to.
pub proof fn lemma_task_sound<'a>(state: State<'a>, task: Task<'a>)
    requires
        state.sound(),
        held(task) matches Some(scope) ==> scope <= state.environment && forall|i: int|
            0 <= i < state.tasks.len() ==> (held(#[trigger] state.tasks[i]) matches Some(lower)
                ==> lower <= scope),
    ensures
        state.with_task(task).sound(),
{
    let after = state.with_task(task);
    assert forall|i: int, j: int| 0 <= i < j < after.tasks.len() implies (held(
        #[trigger] after.tasks[i],
    ) matches Some(lower) ==> (held(#[trigger] after.tasks[j]) matches Some(upper) ==> lower
        <= upper)) by {
        assert(after.tasks[i] == state.tasks[i]);
        if j < state.tasks.len() {
            assert(after.tasks[j] == state.tasks[j]);
        }
    }
    assert forall|i: int| 0 <= i < after.tasks.len() implies (held(
        #[trigger] after.tasks[i],
    ) matches Some(scope) ==> scope <= after.environment) by {
        if i < state.tasks.len() {
            assert(after.tasks[i] == state.tasks[i]);
        }
    }
}

/// The tasks that evaluate arguments go back to no scope.
proof fn lemma_argument_tasks<'a>(arguments: &'a Vec<Expr>, from: nat)
    ensures
        forall|i: int|
            0 <= i < argument_tasks(arguments, from).len() ==> held(
                #[trigger] argument_tasks(arguments, from)[i],
            ) is None,
    decreases arguments@.len() - from,
{
    if from < arguments@.len() {
        lemma_argument_tasks(arguments, from + 1);
    }
}

/// The task that marks the nearest call is one that marks a call.
pub proof fn lemma_nearest_call<'a>(tasks: Seq<Task<'a>>)
    ensures
        nearest_call(tasks) matches Some(at) ==> 0 <= at < tasks.len() && tasks[at] is Called,
    decreases tasks.len(),
{
    if tasks.len() > 0 {
        lemma_nearest_call(tasks.drop_last());
        match tasks.last() {
            Task::Called { .. } => {},
            _ => {
                match nearest_call(tasks.drop_last()) {
                    Some(at) => {
                        assert(tasks.drop_last()[at] == tasks[at]);
                    },
                    None => {},
                }
            },
        }
    }
}

/// To take the uppermost task and do it keeps the run sound.
pub proof fn lemma_perform_sound<'a>(state: State<'a>)
    requires
        state.sound(),
        state.scopes.len() <= usize::MAX,
        state.tasks.len() > 0,
    ensures
        state.taken().perform(state.tasks.last()).0.sound(),
{
    let taken = state.taken();
    let task = state.tasks.last();
    let after = taken.perform(task).0;
    assert(taken.sound()) by {
        assert forall|i: int| 0 <= i < taken.tasks.len() implies #[trigger] taken.tasks[i]
            == state.tasks[i] by {}
    }
    assert(held(task) matches Some(scope) ==> scope <= taken.environment && forall|i: int|
        0 <= i < taken.tasks.len() ==> (held(#[trigger] taken.tasks[i]) matches Some(lower)
            ==> lower <= scope)) by {
        assert(state.tasks[state.tasks.len() - 1] == task);
        assert forall|i: int| 0 <= i < taken.tasks.len() implies #[trigger] taken.tasks[i]
            == state.tasks[i] by {}
    }
    match task {
        Task::Execute(statement) => {
            lemma_execute_sound(taken, statement);
        },
        Task::Evaluate(expression) => {
            lemma_evaluate_calm(taken, expression);
            lemma_calm_sound(taken, after);
        },
        Task::Again { statement, scope, base } => {
            match statement {
                Stmt::While { condition, .. } => {
                    lemma_task_sound(taken, Task::Test { statement, scope, base });
                    lemma_task_sound(
                        taken.with_task(Task::Test { statement, scope, base }),
                        Task::Evaluate(condition),
                    );
                },
                _ => {
                    lemma_calm_sound(taken, after);
                },
            }
        },
        Task::Test { statement, scope, base } => {
            if taken.values.len() >= 1 {
                match statement {
                    Stmt::While { then_branch, finally_branch, .. } => {
                        let popped = taken.without(1);
                        assert(calm(taken, popped));
                        lemma_calm_sound(taken, popped);
                        if taken.value(0).truthy() {
                            lemma_task_sound(popped, Task::Again { statement, scope, base });
                            lemma_task_sound(
                                popped.with_task(Task::Again { statement, scope, base }),
                                Task::Execute(&**then_branch),
                            );
                        } else {
                            assert(calm(taken, after));
                            lemma_calm_sound(taken, after);
                        }
                    },
                    _ => {
                        lemma_calm_sound(taken, after);
                    },
                }
            } else {
                lemma_calm_sound(taken, after);
            }
        },
        Task::Restore(scope) => {
            if scope < taken.scopes.len() {
                lemma_back_sound(state, state.tasks.len() - 1, state.values);
            } else {
                lemma_calm_sound(taken, after);
            }
        },
        Task::Called { scope, base } => {
            if scope < taken.scopes.len() && base <= taken.values.len() {
                lemma_back_sound(
                    state,
                    state.tasks.len() - 1,
                    state.values.take(base as int).push(Value::Nil),
                );
            } else {
                lemma_calm_sound(taken, after);
            }
        },
        Task::Leave(statement) => {
            if taken.values.len() >= 1 {
                match statement {
                    Stmt::Return { .. } => {
                        lemma_returning_sound(taken.without(1), taken.value(0));
                    },
                    _ => {
                        lemma_calm_sound(taken, after);
                    },
                }
            } else {
                lemma_calm_sound(taken, after);
            }
        },
        Task::Invoke(expression) => {
            lemma_invoke_sound(taken, expression);
        },
        Task::Assign(expression) => {
            match expression {
                Expr::Assign { name, .. } => {
                    if taken.locals.contains_key(name.key()) {
                        lemma_scopes_found(
                            taken.scopes,
                            taken.environment as int,
                            name.raw@,
                            taken.locals[name.key()] as nat,
                        );
                    } else {
                        lemma_scopes_found(taken.scopes, 0, name.raw@, 0);
                    }
                },
                _ => {},
            }
            assert(calm(taken, after) || halted(taken, after));
            lemma_calm_sound(taken, after);
        },
        Task::Run { .. } => {
            assert(calm(taken, after) || halted(taken, after));
            lemma_calm_sound(taken, after);
        },
        Task::Discard => {
            assert(calm(taken, after) || halted(taken, after));
            lemma_calm_sound(taken, after);
        },
        Task::Show => {
            assert(calm(taken, after) || halted(taken, after));
            lemma_calm_sound(taken, after);
        },
        Task::Declare(_) => {
            assert(calm(taken, after) || halted(taken, after));
            lemma_calm_sound(taken, after);
        },
        Task::Branch(_) => {
            assert(calm(taken, after) || halted(taken, after));
            lemma_calm_sound(taken, after);
        },
        Task::Numeral(_) => {
            assert(calm(taken, after) || halted(taken, after));
            lemma_calm_sound(taken, after);
        },
        Task::Decide(_) => {
            assert(calm(taken, after) || halted(taken, after));
            lemma_calm_sound(taken, after);
        },
        Task::Apply(_) => {
            assert(calm(taken, after) || halted(taken, after));
            lemma_calm_sound(taken, after);
        },
        Task::Negate(_) => {
            assert(calm(taken, after) || halted(taken, after));
            lemma_calm_sound(taken, after);
        },
        Task::Fetch(_) => {
            assert(calm(taken, after) || halted(taken, after));
            lemma_calm_sound(taken, after);
        },
        Task::Store(_) => {
            assert(calm(taken, after) || halted(taken, after));
            lemma_calm_sound(taken, after);
        },
        Task::Equal => {
            assert(calm(taken, after) || halted(taken, after));
            lemma_calm_sound(taken, after);
        },
        Task::EqualAll(_) => {
            assert(calm(taken, after) || halted(taken, after));
            lemma_calm_sound(taken, after);
        },
        Task::EqualReading => {
            assert(calm(taken, after) || halted(taken, after));
            lemma_calm_sound(taken, after);
        },
        Task::Not => {
            assert(calm(taken, after) || halted(taken, after));
            lemma_calm_sound(taken, after);
        },
        Task::Concat => {
            assert(calm(taken, after) || halted(taken, after));
            lemma_calm_sound(taken, after);
        },
        Task::ConcatReversed => {
            assert(calm(taken, after) || halted(taken, after));
            lemma_calm_sound(taken, after);
        },
    }
}

/// To leave the nearest call keeps the run sound.
proof fn lemma_returning_sound<'a>(state: State<'a>, value: Value)
    requires
        state.sound(),
    ensures
        state.returning(value).0.sound(),
{
    lemma_nearest_call(state.tasks);
    let after = state.returning(value).0;
    match nearest_call(state.tasks) {
        Some(at) => {
            match state.tasks[at] {
                Task::Called { scope, base } => {
                    if scope < state.scopes.len() && base <= state.values.len() {
                        lemma_back_sound(state, at, state.values.take(base as int).push(value));
                    } else {
                        lemma_calm_sound(state, after);
                    }
                },
                _ => {},
            }
        },
        None => {
            lemma_calm_sound(state, after);
        },
    }
}

/// To evaluate an expression is a calm step, unless it abandons the run.
proof fn lemma_evaluate_calm<'a>(state: State<'a>, expression: &'a Expr)
    ensures
        calm(state, state.evaluate(expression).0) || halted(state, state.evaluate(expression).0),
{
    match expression {
        Expr::Call { callee, arguments, .. } => {
            lemma_argument_tasks(&**arguments, 0);
        },
        _ => {},
    }
}

/// To execute a statement keeps the run sound.
proof fn lemma_execute_sound<'a>(state: State<'a>, statement: &'a Stmt)
    requires
        state.sound(),
        state.scopes.len() <= usize::MAX,
    ensures
        state.execute(statement).0.sound(),
{
    let after = state.execute(statement).0;
    match statement {
        Stmt::Block { statements } => {
            let entered = State {
                scopes: state.scopes.push(fresh(Some(state.environment))),
                environment: state.scopes.len() as usize,
                ..state
            };
            assert(entered.sound()) by {
                assert forall|f: int| 0 <= f < entered.functions.len() implies (
                #[trigger] entered.functions[f]).closure < entered.scopes.len()
                    && entered.scopes[entered.functions[f].closure as int].captured by {
                    assert(state.functions[f].closure < state.scopes.len());
                }
            }
            lemma_task_sound(entered, Task::Restore(state.environment));
            lemma_task_sound(
                entered.with_task(Task::Restore(state.environment)),
                Task::Run { statements: &**statements, next: 0 },
            );
        },
        Stmt::While { .. } => {
            lemma_task_sound(
                state,
                Task::Again {
                    statement,
                    scope: state.environment,
                    base: state.values.len() as usize,
                },
            );
        },
        Stmt::Function { name, parameters, body } => {
            assert forall|f: int| 0 <= f < after.functions.len() implies (#[trigger] after.functions[f]).closure
                < after.scopes.len() && after.scopes[after.functions[f].closure as int].captured by {
                if f < state.functions.len() {
                    assert(state.functions[f].closure < state.scopes.len());
                    assert(after.functions[f] == state.functions[f]);
                }
            }
        },
        Stmt::Break { token } => {
            lemma_nearest_loop(state.tasks);
            match nearest_loop(state.tasks) {
                Some(at) => {
                    match state.tasks[at] {
                        Task::Again { statement: looping, scope, base } => {
                            if scope < state.scopes.len() && base <= state.values.len() {
                                lemma_back_sound(state, at, state.values.take(base as int));
                                let left = (State {
                                    tasks: state.tasks.take(at),
                                    values: state.values.take(base as int),
                                    ..state
                                }).back_in(scope);
                                assert(calm(left, left.finally(looping)));
                                lemma_calm_sound(left, left.finally(looping));
                            } else {
                                lemma_calm_sound(state, after);
                            }
                        },
                        _ => {},
                    }
                },
                None => {
                    lemma_calm_sound(state, after);
                },
            }
        },
        _ => {
            assert(calm(state, after) || halted(state, after));
            lemma_calm_sound(state, after);
        },
    }
}

/// To call a callee keeps the run sound.
proof fn lemma_invoke_sound<'a>(state: State<'a>, expression: &'a Expr)
    requires
        state.sound(),
        state.scopes.len() <= usize::MAX,
    ensures
        state.invoke(expression).0.sound(),
{
    let after = state.invoke(expression).0;
    match expression {
        Expr::Call { paren, arguments, .. } => {
            let n = arguments@.len();
            if state.values.len() >= n + 1 {
                match state.value(n as int) {
                    Value::Function(Callable::Declared(f)) => {
                        if f < state.functions.len() && n == state.functions[f as int].parameters@.len()
                            && state.functions[f as int].closure < state.scopes.len() {
                            let function = state.functions[f as int];
                            let entered = State {
                                scopes: after.scopes,
                                environment: after.environment,
                                values: after.values,
                                ..state
                            };
                            assert(entered.sound()) by {
                                assert forall|g: int| 0 <= g < entered.functions.len() implies (
                                #[trigger] entered.functions[g]).closure < entered.scopes.len()
                                    && entered.scopes[entered.functions[g].closure as int].captured by {
                                    assert(state.functions[g].closure < state.scopes.len());
                                }
                            }
                            let marked = Task::Called {
                                scope: state.environment,
                                base: after.values.len() as usize,
                            };
                            lemma_task_sound(entered, marked);
                            lemma_task_sound(
                                entered.with_task(marked),
                                Task::Run { statements: function.body, next: 0 },
                            );
                            assert(after == entered.with_task(marked).with_task(
                                Task::Run { statements: function.body, next: 0 },
                            ));
                        } else {
                            lemma_calm_sound(state, after);
                        }
                    },
                    _ => {
                        assert(calm(state, after) || halted(state, after));
                        lemma_calm_sound(state, after);
                    },
                }
            } else {
                lemma_calm_sound(state, after);
            }
        },
        _ => {
            lemma_calm_sound(state, after);
        },
    }
}

/// A variable that is declared in a block does not alter what the scope
/// around the block binds: when the run is back in that scope, every name is
/// bound there, and seen from there, as it was before the declaration.
pub proof fn lemma_declaration_in_block<'a>(
    state: State<'a>,
    outer: usize,
    name: Seq<char>,
    value: Value,
    seen: Seq<char>,
)
    requires
        chained(state.scopes),
        outer < state.environment < state.scopes.len(),
    ensures
        state.defining(name, value).back_in(outer).environment == outer,
        lookup(state.defining(name, value).back_in(outer).scopes, outer as int, seen) == lookup(
            state.scopes,
            outer as int,
            seen,
        ),
{
    let declared = bound(state.scopes, state.environment as int, name, value);
    lemma_inner_definition_leaves_outer(
        state.scopes,
        state.environment as int,
        outer as int,
        name,
        value,
        seen,
    );
    assert(chained(declared)) by {
        assert forall|i: int| 0 <= i < declared.len() implies (#[trigger] declared[i].parent matches Some(
            p,
        ) ==> p < i) by {
            assert(declared[i].parent == state.scopes[i].parent);
        }
    }
    lemma_released(declared, outer as int);
    lemma_release_keeps_lookups(declared, outer as int, outer as int, seen);
}

} // verus!
