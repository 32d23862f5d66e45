//! The interpreter: a machine that runs statements step by step, and asks its
//! host for what it cannot do itself.

use vstd::prelude::*;
use vstd::string::*;
use std::collections::HashMap;
use crate::common::{
    end_marker, holds, number_equals_reading, Callable, EqualityQuestion, Lexeme, LoxCallable, LoxClass,
    LoxFunction, LoxInstance, LoxType, Object, Token, TokenType, Value,
};
use crate::environment::{Environment, Scope};
use crate::expr::{Expr, Literal};
use crate::number::{is_zero, negate};
use crate::semantics::{
    argument_tasks, arguments_bound, field_pairs, lemma_initial_sound, lemma_step_sound,
    lemma_task_sound, nearest_call, nearest_loop, State,
};
use crate::stmt::Stmt;
use crate::text::decimal;

verus! {

/// What a runtime error is: the token at which the run failed, and why.
pub struct Failure {
    pub token: Lexeme,
    pub message: Seq<char>,
}

/// A runtime error: the token at which the run failed, and why.
#[derive(Debug)]
pub struct RuntimeException {
    pub token: Token,
    pub message: String,
}

impl View for RuntimeException {
    type V = Failure;

    open spec fn view(&self) -> Failure {
        Failure { token: self.token@, message: self.message@ }
    }
}

impl RuntimeException {
    /// Whether this is the error at `token` with the text `message`.
    pub open spec fn is(&self, token: Token, message: Seq<char>) -> bool {
        self.token == token && self.message@ == message
    }

    /// The error at `token` with the text `message`.
    pub fn report(token: Token, message: &str) -> (r: Self)
        ensures
            r.is(token, message@),
    {
        Self { token, message: String::from_str(message) }
    }
}

/// The arithmetic that the interpreter leaves to its host.
#[derive(Debug, PartialEq, Eq, Copy, Clone, Structural)]
pub enum Operation {
    Add,
    Subtract,
    Multiply,
    Divide,
}

/// What the interpreter asks of its host after a step.
#[derive(Debug)]
pub enum Action {
    /// Nothing: take the next step.
    Continue,
    /// Write the line to the output, then take the next step.
    Print(String),
    /// Compute on two numbers and answer with the number that results.
    Arithmetic { operation: Operation, left: u32, right: u32 },
    /// Read the text as a number and answer with it, or with none if the text
    /// is no number.
    Read(String),
    /// Write the number in decimal and answer with the text.
    Render(u32),
    /// Answer with the time, in milliseconds, as a number.
    Clock,
    /// Nothing is left to run.
    Done,
    /// The run failed and was abandoned.
    Fail(RuntimeException),
}

/// `Action`, with texts in place of strings.
pub enum Effect {
    Continue,
    Print(Seq<char>),
    Arithmetic { operation: Operation, left: u32, right: u32 },
    Read(Seq<char>),
    Render(u32),
    Clock,
    Done,
    Fail(Failure),
}

impl View for Action {
    type V = Effect;

    open spec fn view(&self) -> Effect {
        match self {
            Action::Continue => Effect::Continue,
            Action::Print(line) => Effect::Print(line@),
            Action::Arithmetic { operation, left, right } => Effect::Arithmetic {
                operation: *operation,
                left: *left,
                right: *right,
            },
            Action::Read(text) => Effect::Read(text@),
            Action::Render(bits) => Effect::Render(*bits),
            Action::Clock => Effect::Clock,
            Action::Done => Effect::Done,
            Action::Fail(error) => Effect::Fail(error@),
        }
    }
}

/// What the host hands to the interpreter with a step.
#[derive(Debug)]
pub enum Event {
    /// Nothing was asked.
    Resume,
    /// The number that was asked for.
    Number(u32),
    /// What reading a text as a number gave.
    Reading(Option<u32>),
    /// The text that was asked for.
    Text(String),
}

/// `Event`, with a text in place of the string.
pub enum Signal {
    Resume,
    Number(u32),
    Reading(Option<u32>),
    Text(Seq<char>),
}

impl View for Event {
    type V = Signal;

    open spec fn view(&self) -> Signal {
        match self {
            Event::Resume => Signal::Resume,
            Event::Number(bits) => Signal::Number(*bits),
            Event::Reading(reading) => Signal::Reading(*reading),
            Event::Text(text) => Signal::Text(text@),
        }
    }
}

/// The answer that the interpreter waits for.
#[derive(Debug, PartialEq, Eq, Copy, Clone, Structural)]
pub enum Waiting {
    Nothing,
    Number,
    Reading,
    Text,
}

/// What is left to do. The interpreter keeps its tasks on a stack and takes
/// them from the top; most of them take their operands from the stack of
/// values and put their result there.
#[derive(Debug)]
pub enum Task<'a> {
    /// Run the statements from `next` on.
    Run { statements: &'a Vec<Stmt>, next: usize },
    /// Execute the statement.
    Execute(&'a Stmt),
    /// Evaluate the expression.
    Evaluate(&'a Expr),
    /// Drop the value of an expression statement.
    Discard,
    /// Print the value.
    Show,
    /// Bind the variable of the declaration to the value of its initializer.
    Declare(&'a Stmt),
    /// Take the branch of the `if` that its condition selects.
    Branch(&'a Stmt),
    /// Evaluate the condition of the `while` once more. On the stack it
    /// marks the loop that `break` leaves: `scope` is the scope and
    /// `base` the number of values at the time the loop began.
    Again { statement: &'a Stmt, scope: usize, base: usize },
    /// Run the body of the `while` if its condition holds, and leave the
    /// loop through its `finally` clause if not.
    Test { statement: &'a Stmt, scope: usize, base: usize },
    /// Go back to the scope at the end of a block.
    Restore(usize),
    /// Return from the function with the value.
    Leave(&'a Stmt),
    /// The end of a function's body: return `nil` to the scope of the call.
    /// On the stack it marks the call that `return` leaves.
    Called { scope: usize, base: usize },
    /// The value that was read for a number literal.
    Numeral(&'a Expr),
    /// Assign the value to the variable.
    Assign(&'a Expr),
    /// Decide `and` and `or` on their left operand.
    Decide(&'a Expr),
    /// Apply the binary operator to its operands.
    Apply(&'a Expr),
    /// Apply the unary operator to its operand.
    Negate(&'a Expr),
    /// Call the callee with the arguments.
    Invoke(&'a Expr),
    /// Read the property of the object.
    Fetch(&'a Expr),
    /// Write the property of the object.
    Store(&'a Expr),
    /// Decide whether two values are equal.
    Equal,
    /// Decide whether the remaining pairs of values are all equal.
    EqualAll(usize),
    /// Decide whether a number equals what a string was read as.
    EqualReading,
    /// Negate a boolean.
    Not,
    /// Join two texts, the upper behind the lower.
    Concat,
    /// Join two texts, the lower behind the upper.
    ConcatReversed,
}

/// The interpreter: a machine that runs a program step by step. What it
/// cannot do itself (arithmetic on numbers, reading and writing them, the
/// clock, the output) it asks of its host with the `Action` that a step
/// returns, and the host answers with the `Event` of the next step.
#[derive(Debug)]
pub struct Interpreter<'a> {
    environments: Environment,
    functions: Vec<LoxFunction<'a>>,
    instances: Vec<LoxInstance>,
    locals: HashMap<u64, usize>,
    environment: usize,
    tasks: Vec<Task<'a>>,
    values: Vec<LoxType>,
    waiting: Waiting,
}

impl<'a> View for Interpreter<'a> {
    type V = State<'a>;

    closed spec fn view(&self) -> State<'a> {
        State {
            scopes: self.environments@,
            functions: self.functions@,
            instances: self.instances@.map_values(|o: LoxInstance| o@),
            locals: self.locals@,
            environment: self.environment,
            tasks: self.tasks@,
            values: self.values@.map_values(|v: LoxType| v@),
            waiting: self.waiting,
        }
    }
}

/// The state of a new interpreter: the global scope, in which `clock` is
/// bound to the clock, and nothing to do.
pub open spec fn initial<'a>() -> State<'a> {
    State {
        scopes: seq![
            Scope {
                bindings: Map::empty().insert("clock"@, Value::Function(Callable::Clock)),
                parent: None,
                captured: false,
            },
        ],
        functions: Seq::empty(),
        instances: Seq::empty(),
        locals: Map::empty(),
        environment: 0,
        tasks: Seq::empty(),
        values: Seq::empty(),
        waiting: Waiting::Nothing,
    }
}

impl<'a> Interpreter<'a> {
    /// The scopes are well formed, the run stands in one of them, and the
    /// instances are well formed.
    pub closed spec fn wf(&self) -> bool {
        &&& self.environments.wf()
        &&& self.environment < self.environments@.len()
        &&& forall|i: int| 0 <= i < self.instances@.len() ==> (#[trigger] self.instances@[i]).wf()
    }

    /// A new interpreter: nothing to do, and nothing defined but `clock`.
    pub fn new() -> (r: Self)
        ensures
            r.wf(),
            r@ == initial(),
            r@.sound(),
    {
        proof {
            lemma_initial_sound();
        }
        broadcast use vstd::std_specs::hash::group_hash_axioms;

        let mut environments = Environment::new();
        environments.define(0, String::from_str("clock"), LoxType::Function(Callable::Clock));
        let r = Interpreter {
            environments,
            functions: Vec::new(),
            instances: Vec::new(),
            locals: HashMap::new(),
            environment: 0,
            tasks: Vec::new(),
            values: Vec::new(),
            waiting: Waiting::Nothing,
        };
        proof {
            assert(r@.scopes =~= initial().scopes);
            assert(r@.instances =~= initial().instances);
            assert(r@.values =~= initial().values);
            assert(r@.functions =~= initial().functions);
            assert(r@.tasks =~= initial().tasks);
        }
        r
    }

    /// The global scope.
    pub fn globals(&self) -> (r: usize)
        ensures
            r == 0,
    {
        0
    }

    /// Whether nothing is left to run.
    pub fn is_idle(&self) -> (r: bool)
        ensures
            r == (self@.tasks.len() == 0),
    {
        self.tasks.len() == 0
    }

    /// Notes that the variable that `name` refers to is found `depth` scopes up.
    pub fn resolve(&mut self, name: &Token, depth: usize)
        requires
            old(self).wf(),
        ensures
            final(self).wf(),
            final(self)@ == (State {
                locals: old(self)@.locals.insert(name.key(), depth),
                ..old(self)@
            }),
            old(self)@.sound() ==> final(self)@.sound(),
    {
        broadcast use vstd::std_specs::hash::group_hash_axioms;

        self.locals.insert(name.position(), depth);
    }

    /// Puts the statements on top of what is left to do: the next steps run them.
    pub fn interpret(&mut self, statements: &'a Vec<Stmt>)
        requires
            old(self).wf(),
        ensures
            final(self).wf(),
            final(self)@ == old(self)@.with_task(Task::Run { statements, next: 0 }),
            old(self)@.sound() ==> final(self)@.sound(),
    {
        proof {
            if self@.sound() {
                lemma_task_sound(self@, Task::Run { statements, next: 0 });
            }
        }
        self.tasks.push(Task::Run { statements, next: 0 });
    }

    /// Puts the statements on top of what is left to do, to be run in the
    /// scope `environment`, which is the one that the run is in or one made
    /// after it; after them the run is back in the scope it is in now.
    pub fn execute_block(&mut self, statements: &'a Vec<Stmt>, environment: usize)
        requires
            old(self).wf(),
            old(self)@.environment <= environment < old(self)@.scopes.len(),
        ensures
            final(self).wf(),
            final(self)@ == old(self)@.with_task(Task::Restore(old(self)@.environment)).with_task(
                Task::Run { statements, next: 0 },
            ).in_scope(environment),
            old(self)@.sound() ==> final(self)@.sound(),
    {
        proof {
            if self@.sound() {
                let marked = self@.with_task(Task::Restore(self@.environment));
                lemma_task_sound(self@, Task::Restore(self@.environment));
                lemma_task_sound(marked, Task::Run { statements, next: 0 });
            }
        }
        self.tasks.push(Task::Restore(self.environment));
        self.tasks.push(Task::Run { statements, next: 0 });
        self.environment = environment;
    }

    /// Puts a value on top of the values at hand.
    fn push(&mut self, value: LoxType)
        requires
            old(self).wf(),
        ensures
            final(self).wf(),
            final(self)@ == old(self)@.with_value(value@),
    {
        self.values.push(value);
        assert(self@.values =~= old(self)@.values.push(value@));
    }

    /// Takes the uppermost value, if there is one.
    fn pop(&mut self) -> (r: Option<LoxType>)
        requires
            old(self).wf(),
        ensures
            final(self).wf(),
            match r {
                Some(value) => old(self)@.values.len() >= 1 && value@ == old(self)@.value(0)
                    && final(self)@ == old(self)@.without(1),
                None => old(self)@.values.len() == 0 && final(self)@ == old(self)@,
            },
    {
        let r = self.values.pop();
        proof {
            if r is Some {
                assert(self@.values =~= old(self)@.values.take(old(self)@.values.len() - 1));
            }
        }
        r
    }

    /// Puts a task on top of what is left to do.
    fn todo(&mut self, task: Task<'a>)
        requires
            old(self).wf(),
        ensures
            final(self).wf(),
            final(self)@ == old(self)@.with_task(task),
    {
        self.tasks.push(task);
    }

    /// Notes the answer that the run waits for.
    fn ask(&mut self, waiting: Waiting)
        requires
            old(self).wf(),
        ensures
            final(self).wf(),
            final(self)@ == (State { waiting, ..old(self)@ }),
    {
        self.waiting = waiting;
    }

    /// Binds `name` to `value` in the scope in which the run stands.
    fn define(&mut self, name: &Token, value: LoxType)
        requires
            old(self).wf(),
        ensures
            final(self).wf(),
            final(self)@ == old(self)@.defining(name.raw@, value@),
    {
        self.environments.define(self.environment, name.raw.clone(), value);
    }

    /// Abandons the run with the error at `token` that `message` describes.
    fn fail(&mut self, token: Token, message: &str) -> (action: Action)
        requires
            old(self).wf(),
        ensures
            final(self).wf(),
            (final(self)@, action@) == old(self)@.failed(token@, message@),
    {
        proof {
            self.environments.lemma_wf();
        }
        self.environments.release(0);
        self.environment = 0;
        self.tasks.clear();
        self.values.clear();
        self.waiting = Waiting::Nothing;
        proof {
            assert(self@.values =~= Seq::<Value>::empty());
            assert(self@.tasks =~= Seq::<Task<'a>>::empty());
        }
        Action::Fail(RuntimeException::report(token, message))
    }

    /// Abandons the run with `error`.
    fn raise(&mut self, error: RuntimeException) -> (action: Action)
        requires
            old(self).wf(),
        ensures
            final(self).wf(),
            (final(self)@, action@) == old(self)@.failed(error.token@, error.message@),
    {
        let RuntimeException { token, message } = error;
        self.fail(token, message.as_str())
    }

    /// The token of an error that no token of the program stands for.
    fn nowhere() -> (r: Token)
        ensures
            r@ == end_marker(),
    {
        proof {
            reveal_strlit("");
        }
        let r = Token::new(TokenType::EOF, "", 0, 0);
        assert(r.raw@ =~= Seq::<char>::empty());
        r
    }

    /// Abandons the run because the state is one that no program leads to.
    fn broken(&mut self) -> (action: Action)
        requires
            old(self).wf(),
        ensures
            final(self).wf(),
            (final(self)@, action@) == old(self)@.broken(),
    {
        self.fail(Self::nowhere(), "The interpreter met a state that no program leads to")
    }

    /// Runs the statements from `next` on.
    fn run(&mut self, statements: &'a Vec<Stmt>, next: usize) -> (action: Action)
        requires
            old(self).wf(),
        ensures
            final(self).wf(),
            (final(self)@, action@) == old(self)@.run(statements, next),
    {
        if next < statements.len() {
            self.todo(Task::Run { statements, next: next + 1 });
            self.todo(Task::Execute(&statements[next]));
        }
        Action::Continue
    }

    /// How a value that is no number is written.
    fn text_of(&self, value: &LoxType) -> (r: Option<String>)
        requires
            self.wf(),
        ensures
            match r {
                Some(text) => self@.written(value@) == Some(text@),
                None => self@.written(value@) is None,
            },
    {
        match value {
            LoxType::Number(_) => None,
            LoxType::Strang(text) => Some(text.clone()),
            LoxType::Bool(b) => Some(
                if *b {
                    String::from_str("true")
                } else {
                    String::from_str("false")
                },
            ),
            LoxType::Nil => Some(String::from_str("nil")),
            LoxType::Function(Callable::Clock) => Some(String::from_str("function <0>")),
            LoxType::Function(Callable::Declared(f)) => {
                if *f < self.functions.len() {
                    let mut text = String::from_str("function <");
                    text.append(decimal(self.functions[*f].arity()).as_str());
                    text.append(">");
                    Some(text)
                } else {
                    None
                }
            },
            LoxType::Class(class) => Some(class.to_string()),
            LoxType::Instance(i) => {
                if *i < self.instances.len() {
                    assert(self@.instances[*i as int] == self.instances@[*i as int]@);
                    Some(self.instances[*i].to_string())
                } else {
                    None
                }
            },
        }
    }

    /// Schedules the `finally` clause of a loop, if it has one.
    fn finally(&mut self, looping: &'a Stmt)
        requires
            old(self).wf(),
        ensures
            final(self).wf(),
            final(self)@ == old(self)@.finally(looping),
    {
        match looping {
            Stmt::While { finally_branch: Some(clause), .. } => {
                self.todo(Task::Execute(&**clause));
            },
            _ => {},
        }
    }

    /// Drops the values above the lowest `base`.
    fn cut(&mut self, base: usize)
        requires
            old(self).wf(),
            base <= old(self)@.values.len(),
        ensures
            final(self).wf(),
            final(self)@ == (State { values: old(self)@.values.take(base as int), ..old(self)@ }),
    {
        self.values.truncate(base);
        assert(self@.values =~= old(self)@.values.take(base as int));
    }

    /// Makes `scope` the scope in which the run stands.
    fn enter(&mut self, scope: usize)
        requires
            old(self).wf(),
            scope < old(self)@.scopes.len(),
        ensures
            final(self).wf(),
            final(self)@ == old(self)@.in_scope(scope),
    {
        self.environment = scope;
    }

    /// Goes back to `scope`, and gives up the scopes made since.
    fn back_in(&mut self, scope: usize)
        requires
            old(self).wf(),
            scope < old(self)@.scopes.len(),
        ensures
            final(self).wf(),
            final(self)@ == old(self)@.back_in(scope),
    {
        self.environments.release(scope);
        self.environment = scope;
    }

    /// Leaves the nearest loop.
    fn breaking(&mut self) -> (action: Action)
        requires
            old(self).wf(),
        ensures
            final(self).wf(),
            (final(self)@, action@) == old(self)@.breaking(),
    {
        let ghost start = self@;
        assert(self.tasks@ =~= start.tasks.take(self.tasks@.len() as int));
        loop
            invariant
                start == old(self)@,
                self.wf(),
                self@ == (State { tasks: self.tasks@, ..start }),
                self.tasks@ == start.tasks.take(self.tasks@.len() as int),
                self.tasks@.len() <= start.tasks.len(),
                nearest_loop(start.tasks) == nearest_loop(self.tasks@),
            decreases self.tasks@.len(),
        {
            let ghost before = self.tasks@;
            match self.tasks.pop() {
                None => {
                    return self.broken();
                },
                Some(Task::Again { statement, scope, base }) => {
                    assert(before.drop_last() =~= start.tasks.take(self.tasks@.len() as int));
                    assert(start.tasks[self.tasks@.len() as int] == before.last());
                    if scope < self.environments.len() && base <= self.values.len() {
                        self.cut(base);
                        self.back_in(scope);
                        self.finally(statement);
                        return Action::Continue;
                    } else {
                        return self.broken();
                    }
                },
                Some(Task::Called { .. }) => {
                    return self.broken();
                },
                Some(_) => {
                    assert(before.drop_last() =~= start.tasks.take(self.tasks@.len() as int));
                },
            }
        }
    }

    /// Leaves the nearest call with `value`.
    fn returning(&mut self, value: LoxType) -> (action: Action)
        requires
            old(self).wf(),
        ensures
            final(self).wf(),
            (final(self)@, action@) == old(self)@.returning(value@),
    {
        let ghost start = self@;
        assert(self.tasks@ =~= start.tasks.take(self.tasks@.len() as int));
        loop
            invariant
                start == old(self)@,
                self.wf(),
                self@ == (State { tasks: self.tasks@, ..start }),
                self.tasks@ == start.tasks.take(self.tasks@.len() as int),
                self.tasks@.len() <= start.tasks.len(),
                nearest_call(start.tasks) == nearest_call(self.tasks@),
            decreases self.tasks@.len(),
        {
            let ghost before = self.tasks@;
            match self.tasks.pop() {
                None => {
                    return self.broken();
                },
                Some(Task::Called { scope, base }) => {
                    assert(before.drop_last() =~= start.tasks.take(self.tasks@.len() as int));
                    assert(start.tasks[self.tasks@.len() as int] == before.last());
                    if scope < self.environments.len() && base <= self.values.len() {
                        self.cut(base);
                        self.back_in(scope);
                        self.push(value);
                        return Action::Continue;
                    } else {
                        return self.broken();
                    }
                },
                Some(_) => {
                    assert(before.drop_last() =~= start.tasks.take(self.tasks@.len() as int));
                },
            }
        }
    }

    /// Executes a statement.
    fn execute(&mut self, statement: &'a Stmt) -> (action: Action)
        requires
            old(self).wf(),
        ensures
            final(self).wf(),
            (final(self)@, action@) == old(self)@.execute(statement),
    {
        match statement {
            Stmt::Block { statements } => {
                let outer = self.environment;
                let inner = self.environments.child(outer);
                self.todo(Task::Restore(outer));
                self.todo(Task::Run { statements: &**statements, next: 0 });
                self.enter(inner);
                Action::Continue
            },
            Stmt::Expression { expression } => {
                self.todo(Task::Discard);
                self.todo(Task::Evaluate(expression));
                Action::Continue
            },
            Stmt::If { condition, .. } => {
                self.todo(Task::Branch(statement));
                self.todo(Task::Evaluate(condition));
                Action::Continue
            },
            Stmt::While { .. } => {
                let scope = self.environment;
                let base = self.values.len();
                self.todo(Task::Again { statement, scope, base });
                Action::Continue
            },
            Stmt::Print { expression } => {
                self.todo(Task::Show);
                self.todo(Task::Evaluate(expression));
                Action::Continue
            },
            Stmt::Var { name, initializer } => {
                match initializer {
                    Some(initializer) => {
                        self.todo(Task::Declare(statement));
                        self.todo(Task::Evaluate(initializer));
                    },
                    None => {
                        self.define(name, LoxType::Nil);
                    },
                }
                Action::Continue
            },
            Stmt::Function { name, parameters, body } => {
                let index = self.functions.len();
                self.functions.push(LoxFunction::new(name, parameters, &**body, self.environment));
                self.environments.capture(self.environment);
                self.define(name, LoxType::Function(Callable::Declared(index)));
                Action::Continue
            },
            Stmt::Class { name, .. } => {
                self.define(name, LoxType::Class(LoxClass::new(name.raw.clone())));
                Action::Continue
            },
            Stmt::Return { return_value, .. } => {
                match return_value {
                    Some(value) => {
                        self.todo(Task::Leave(statement));
                        self.todo(Task::Evaluate(value));
                    },
                    None => {
                        self.push(LoxType::Nil);
                        self.todo(Task::Leave(statement));
                    },
                }
                Action::Continue
            },
            Stmt::Break { .. } => self.breaking(),
        }
    }

    /// Prints the uppermost value.
    fn show(&mut self) -> (action: Action)
        requires
            old(self).wf(),
        ensures
            final(self).wf(),
            (final(self)@, action@) == old(self)@.show(),
    {
        match self.pop() {
            None => self.broken(),
            Some(LoxType::Number(bits)) => {
                self.todo(Task::Show);
                self.ask(Waiting::Text);
                Action::Render(bits)
            },
            Some(value) => match self.text_of(&value) {
                Some(text) => Action::Print(text),
                None => self.broken(),
            },
        }
    }

    /// Binds the variable of a declaration to the uppermost value.
    fn declare(&mut self, statement: &'a Stmt) -> (action: Action)
        requires
            old(self).wf(),
        ensures
            final(self).wf(),
            (final(self)@, action@) == old(self)@.declare(statement),
    {
        match self.pop() {
            None => self.broken(),
            Some(value) => match statement {
                Stmt::Var { name, .. } => {
                    self.define(name, value);
                    Action::Continue
                },
                _ => self.broken(),
            },
        }
    }

    /// Takes the branch of an `if` that the uppermost value selects.
    fn branch(&mut self, statement: &'a Stmt) -> (action: Action)
        requires
            old(self).wf(),
        ensures
            final(self).wf(),
            (final(self)@, action@) == old(self)@.branch(statement),
    {
        match self.pop() {
            None => self.broken(),
            Some(condition) => match statement {
                Stmt::If { then_branch, else_branch, .. } => {
                    if condition.is_truthy() {
                        self.todo(Task::Execute(&**then_branch));
                    } else {
                        match else_branch {
                            Some(other) => {
                                self.todo(Task::Execute(&**other));
                            },
                            None => {},
                        }
                    }
                    Action::Continue
                },
                _ => self.broken(),
            },
        }
    }

    /// Evaluates the condition of a loop once more.
    fn again(&mut self, statement: &'a Stmt, scope: usize, base: usize) -> (action: Action)
        requires
            old(self).wf(),
        ensures
            final(self).wf(),
            (final(self)@, action@) == old(self)@.again(statement, scope, base),
    {
        match statement {
            Stmt::While { condition, .. } => {
                self.todo(Task::Test { statement, scope, base });
                self.todo(Task::Evaluate(condition));
                Action::Continue
            },
            _ => self.broken(),
        }
    }

    /// Runs the body of a loop or ends the loop, as the uppermost value says.
    fn test(&mut self, statement: &'a Stmt, scope: usize, base: usize) -> (action: Action)
        requires
            old(self).wf(),
        ensures
            final(self).wf(),
            (final(self)@, action@) == old(self)@.test(statement, scope, base),
    {
        match self.pop() {
            None => self.broken(),
            Some(condition) => match statement {
                Stmt::While { then_branch, .. } => {
                    if condition.is_truthy() {
                        self.todo(Task::Again { statement, scope, base });
                        self.todo(Task::Execute(&**then_branch));
                    } else {
                        self.finally(statement);
                    }
                    Action::Continue
                },
                _ => self.broken(),
            },
        }
    }

    /// Goes back to `scope` at the end of a block.
    fn restore(&mut self, scope: usize) -> (action: Action)
        requires
            old(self).wf(),
        ensures
            final(self).wf(),
            (final(self)@, action@) == old(self)@.restore(scope),
    {
        if scope < self.environments.len() {
            self.back_in(scope);
            Action::Continue
        } else {
            self.broken()
        }
    }

    /// Returns the uppermost value from the nearest call.
    fn leave(&mut self, statement: &'a Stmt) -> (action: Action)
        requires
            old(self).wf(),
        ensures
            final(self).wf(),
            (final(self)@, action@) == old(self)@.leave(statement),
    {
        match self.pop() {
            None => self.broken(),
            Some(value) => match statement {
                Stmt::Return { .. } => self.returning(value),
                _ => self.broken(),
            },
        }
    }

    /// Ends a call whose body ran to its end.
    fn called(&mut self, scope: usize, base: usize) -> (action: Action)
        requires
            old(self).wf(),
        ensures
            final(self).wf(),
            (final(self)@, action@) == old(self)@.called(scope, base),
    {
        if scope < self.environments.len() && base <= self.values.len() {
            self.cut(base);
            self.back_in(scope);
            self.push(LoxType::Nil);
            Action::Continue
        } else {
            self.broken()
        }
    }

    /// Takes the upper two values: the lower one first.
    fn take2(&mut self) -> (r: (LoxType, LoxType))
        requires
            old(self).wf(),
            old(self)@.values.len() >= 2,
        ensures
            final(self).wf(),
            final(self)@ == old(self)@.without(2),
            r.0@ == old(self)@.value(1),
            r.1@ == old(self)@.value(0),
    {
        let upper = self.values.pop().unwrap();
        let lower = self.values.pop().unwrap();
        assert(self@.values =~= old(self)@.values.take(old(self)@.values.len() - 2));
        (lower, upper)
    }

    /// The uppermost value.
    fn top(&self) -> (r: LoxType)
        requires
            self@.values.len() >= 1,
        ensures
            r@ == self@.value(0),
    {
        self.values[self.values.len() - 1].clone()
    }

    /// Reads the variable that `name` refers to.
    fn read(&self, name: &Token) -> (r: Result<LoxType, RuntimeException>)
        requires
            self.wf(),
        ensures
            match self@.read(name) {
                Ok(value) => r matches Ok(found) && found@ == value,
                Err(message) => r matches Err(e) && e.is(*name, message),
            },
    {
        broadcast use vstd::std_specs::hash::group_hash_axioms;

        proof {
            self.environments.lemma_wf();
        }
        match self.locals.get(&name.position()) {
            Some(distance) => self.environments.get_at(self.environment, *distance, name),
            None => self.environments.get(0, name),
        }
    }

    /// Assigns `value` to the variable that `name` refers to.
    fn write(&mut self, name: &Token, value: LoxType) -> (r: Result<(), RuntimeException>)
        requires
            old(self).wf(),
        ensures
            final(self).wf(),
            match old(self)@.written_to(name, value@) {
                Ok(scopes) => r is Ok && final(self)@ == (State { scopes, ..old(self)@ }),
                Err(message) => r matches Err(e) && e.is(*name, message) && final(self)@ == old(
                    self,
                )@,
            },
    {
        broadcast use vstd::std_specs::hash::group_hash_axioms;

        proof {
            self.environments.lemma_wf();
        }
        let distance: Option<usize> = match self.locals.get(&name.position()) {
            Some(distance) => Some(*distance),
            None => None,
        };
        let r = match distance {
            Some(distance) => self.environments.assign_at(self.environment, distance, name, value),
            None => self.environments.assign(0, name, value),
        };
        proof {
            self.environments.lemma_wf();
            assert(self.environments@.len() == old(self).environments@.len());
        }
        r
    }

    /// Evaluates an expression.
    fn evaluate(&mut self, expression: &'a Expr) -> (action: Action)
        requires
            old(self).wf(),
        ensures
            final(self).wf(),
            (final(self)@, action@) == old(self)@.evaluate(expression),
    {
        match expression {
            Expr::Literal { value } => match value {
                Literal::Number(text) => {
                    self.todo(Task::Numeral(expression));
                    self.ask(Waiting::Reading);
                    Action::Read(text.clone())
                },
                Literal::Strang(text) => {
                    self.push(LoxType::Strang(text.clone()));
                    Action::Continue
                },
                Literal::Bool(b) => {
                    self.push(LoxType::Bool(*b));
                    Action::Continue
                },
                Literal::Nil => {
                    self.push(LoxType::Nil);
                    Action::Continue
                },
            },
            Expr::Variable { name } => match self.read(name) {
                Ok(value) => {
                    self.push(value);
                    Action::Continue
                },
                Err(error) => self.raise(error),
            },
            Expr::Assign { value, .. } => {
                self.todo(Task::Assign(expression));
                self.todo(Task::Evaluate(&**value));
                Action::Continue
            },
            Expr::Logical { left, .. } => {
                self.todo(Task::Decide(expression));
                self.todo(Task::Evaluate(&**left));
                Action::Continue
            },
            Expr::Binary { left, right, .. } => {
                self.todo(Task::Apply(expression));
                self.todo(Task::Evaluate(&**right));
                self.todo(Task::Evaluate(&**left));
                Action::Continue
            },
            Expr::Unary { right, .. } => {
                self.todo(Task::Negate(expression));
                self.todo(Task::Evaluate(&**right));
                Action::Continue
            },
            Expr::Call { callee, arguments, .. } => {
                self.todo(Task::Invoke(expression));
                let arguments: &'a Vec<Expr> = &**arguments;
                let ghost base = self.tasks@;
                let mut i: usize = arguments.len();
                assert(self.tasks@ =~= base + argument_tasks(arguments, i as nat));
                while i > 0
                    invariant
                        self.wf(),
                        i <= arguments@.len(),
                        self@ == (State { tasks: self.tasks@, ..old(self)@ }),
                        self.tasks@ == base + argument_tasks(arguments, i as nat),
                    decreases i,
                {
                    i -= 1;
                    self.tasks.push(Task::Evaluate(&arguments[i]));
                    assert(self.tasks@ =~= base + argument_tasks(arguments, i as nat));
                }
                self.todo(Task::Evaluate(&**callee));
                Action::Continue
            },
            Expr::Get { object, .. } => {
                self.todo(Task::Fetch(expression));
                self.todo(Task::Evaluate(&**object));
                Action::Continue
            },
            Expr::SetField { object, value, .. } => {
                self.todo(Task::Store(expression));
                self.todo(Task::Evaluate(&**value));
                self.todo(Task::Evaluate(&**object));
                Action::Continue
            },
            Expr::Grouping { expression: inner } => {
                self.todo(Task::Evaluate(&**inner));
                Action::Continue
            },
        }
    }

    /// Takes what the host read for a number literal.
    fn numeral(&mut self, expression: &'a Expr) -> (action: Action)
        requires
            old(self).wf(),
        ensures
            final(self).wf(),
            (final(self)@, action@) == old(self)@.numeral(expression),
    {
        if self.values.len() < 1 {
            return self.broken();
        }
        match self.top() {
            LoxType::Number(_) => Action::Continue,
            _ => self.fail(Self::nowhere(), "Invalid number literal"),
        }
    }

    /// Assigns the uppermost value to the variable of an assignment.
    fn assign(&mut self, expression: &'a Expr) -> (action: Action)
        requires
            old(self).wf(),
        ensures
            final(self).wf(),
            (final(self)@, action@) == old(self)@.assign(expression),
    {
        if self.values.len() < 1 {
            return self.broken();
        }
        match expression {
            Expr::Assign { name, .. } => {
                let value = self.top();
                match self.write(name, value) {
                    Ok(()) => Action::Continue,
                    Err(error) => self.raise(error),
                }
            },
            _ => self.broken(),
        }
    }

    /// Decides `and` and `or` on their left operand.
    fn decide(&mut self, expression: &'a Expr) -> (action: Action)
        requires
            old(self).wf(),
        ensures
            final(self).wf(),
            (final(self)@, action@) == old(self)@.decide(expression),
    {
        if self.values.len() < 1 {
            return self.broken();
        }
        match expression {
            Expr::Logical { operator, right, .. } => match operator.token_type {
                TokenType::Or => {
                    let left = self.pop().unwrap();
                    if left.is_truthy() {
                        self.push(LoxType::Bool(true));
                    } else {
                        self.todo(Task::Evaluate(&**right));
                    }
                    Action::Continue
                },
                TokenType::And => {
                    let left = self.pop().unwrap();
                    if !left.is_truthy() {
                        self.push(LoxType::Bool(false));
                    } else {
                        self.todo(Task::Evaluate(&**right));
                    }
                    Action::Continue
                },
                _ => {
                    let mut message = String::from_str("invalid operator ");
                    message.append(operator.raw.as_str());
                    message.append(" in logical expression");
                    self.fail(operator.clone(), message.as_str())
                },
            },
            _ => self.broken(),
        }
    }

    /// Abandons the run because a unary operator does not take its operand.
    fn unsupported(&mut self, operator: &Token) -> (action: Action)
        requires
            old(self).wf(),
        ensures
            final(self).wf(),
            (final(self)@, action@) == old(self)@.failed(
                operator@,
                crate::semantics::invalid_unary(operator.raw@),
            ),
    {
        let mut message = String::from_str("Unary operator ");
        message.append(operator.raw.as_str());
        message.append(" not supported on this operand");
        self.fail(operator.clone(), message.as_str())
    }

    /// Applies a unary operator to the uppermost value.
    fn negate(&mut self, expression: &'a Expr) -> (action: Action)
        requires
            old(self).wf(),
        ensures
            final(self).wf(),
            (final(self)@, action@) == old(self)@.negate(expression),
    {
        if self.values.len() < 1 {
            return self.broken();
        }
        match expression {
            Expr::Unary { operator, .. } => match operator.token_type {
                TokenType::Minus => match self.top() {
                    LoxType::Number(bits) => {
                        self.pop();
                        self.push(LoxType::Number(negate(bits)));
                        Action::Continue
                    },
                    _ => self.unsupported(operator),
                },
                TokenType::Bang => {
                    let right = self.pop().unwrap();
                    self.push(LoxType::Bool(!right.is_truthy()));
                    Action::Continue
                },
                _ => self.unsupported(operator),
            },
            _ => self.broken(),
        }
    }

    /// Abandons the run because an operator does not take its operands.
    fn mismatch(&mut self, operator: &Token) -> (action: Action)
        requires
            old(self).wf(),
        ensures
            final(self).wf(),
            (final(self)@, action@) == old(self)@.failed(
                operator@,
                crate::semantics::invalid_operands(operator.raw@),
            ),
    {
        let mut message = String::from_str("invalid operands for ");
        message.append(operator.raw.as_str());
        self.fail(operator.clone(), message.as_str())
    }

    /// Adds two numbers, or joins two values one of which is a string.
    fn plus(&mut self, left: LoxType, right: LoxType, operator: &Token) -> (action: Action)
        requires
            old(self).wf(),
        ensures
            final(self).wf(),
            (final(self)@, action@) == old(self)@.plus(left@, right@, operator),
    {
        match (left, right) {
            (LoxType::Number(a), LoxType::Number(b)) => {
                self.ask(Waiting::Number);
                Action::Arithmetic { operation: Operation::Add, left: a, right: b }
            },
            (LoxType::Strang(text), LoxType::Number(b)) => {
                self.push(LoxType::Strang(text));
                self.todo(Task::Concat);
                self.ask(Waiting::Text);
                Action::Render(b)
            },
            (LoxType::Strang(text), other) => match self.text_of(&other) {
                Some(written) => {
                    self.push(LoxType::Strang(text.concat(written.as_str())));
                    Action::Continue
                },
                None => self.broken(),
            },
            (LoxType::Number(a), LoxType::Strang(text)) => {
                self.push(LoxType::Strang(text));
                self.todo(Task::ConcatReversed);
                self.ask(Waiting::Text);
                Action::Render(a)
            },
            (other, LoxType::Strang(text)) => match self.text_of(&other) {
                Some(written) => {
                    self.push(LoxType::Strang(written.concat(text.as_str())));
                    Action::Continue
                },
                None => self.broken(),
            },
            _ => self.mismatch(operator),
        }
    }

    /// Subtracts, multiplies or divides two numbers.
    fn arithmetic(
        &mut self,
        operation: Operation,
        left: LoxType,
        right: LoxType,
        operator: &Token,
    ) -> (action: Action)
        requires
            old(self).wf(),
        ensures
            final(self).wf(),
            (final(self)@, action@) == old(self)@.arithmetic(operation, left@, right@, operator),
    {
        match (left, right) {
            (LoxType::Number(a), LoxType::Number(b)) => {
                if operation == Operation::Divide && is_zero(b) {
                    self.fail(operator.clone(), "cannot divide by 0")
                } else {
                    self.ask(Waiting::Number);
                    Action::Arithmetic { operation, left: a, right: b }
                }
            },
            _ => self.mismatch(operator),
        }
    }

    /// Applies a binary operator to the upper two values.
    fn apply(&mut self, expression: &'a Expr) -> (action: Action)
        requires
            old(self).wf(),
        ensures
            final(self).wf(),
            (final(self)@, action@) == old(self)@.apply(expression),
    {
        if self.values.len() < 2 {
            return self.broken();
        }
        match expression {
            Expr::Binary { operator, .. } => match operator.token_type {
                TokenType::Plus => {
                    let (left, right) = self.take2();
                    self.plus(left, right, operator)
                },
                TokenType::Minus => {
                    let (left, right) = self.take2();
                    self.arithmetic(Operation::Subtract, left, right, operator)
                },
                TokenType::Star => {
                    let (left, right) = self.take2();
                    self.arithmetic(Operation::Multiply, left, right, operator)
                },
                TokenType::Slash => {
                    let (left, right) = self.take2();
                    self.arithmetic(Operation::Divide, left, right, operator)
                },
                TokenType::Greater | TokenType::GreaterEqual | TokenType::Less
                | TokenType::LessEqual => {
                    let (left, right) = self.take2();
                    self.push(
                        LoxType::Bool(holds(operator.token_type, left.partial_compare(&right))),
                    );
                    Action::Continue
                },
                TokenType::EqualEqual => {
                    self.todo(Task::Equal);
                    Action::Continue
                },
                TokenType::BangEqual => {
                    self.todo(Task::Not);
                    self.todo(Task::Equal);
                    Action::Continue
                },
                _ => {
                    let mut message = String::from_str("Invalid binary operator ");
                    message.append(operator.raw.as_str());
                    self.fail(operator.clone(), message.as_str())
                },
            },
            _ => self.broken(),
        }
    }

    /// Whether two instances are of one class and have the same field names.
    fn comparable(left: &LoxInstance, right: &LoxInstance) -> (r: bool)
        requires
            left.wf(),
            right.wf(),
        ensures
            r == State::<'a>::comparable(left@, right@),
    {
        if !left.class().same(right.class()) || left.len() != right.len() {
            return false;
        }
        let n = left.len();
        let mut k: usize = 0;
        while k < n
            invariant
                left.wf(),
                right.wf(),
                k <= n,
                n == left@.names.len(),
                forall|j: int| 0 <= j < k ==> right@.has(#[trigger] left@.names[j]),
            decreases n - k,
        {
            if right.field(left.name_at(k)).is_none() {
                return false;
            }
            k += 1;
        }
        true
    }

    /// The fields of `left`, each followed by the field of that name of `right`.
    fn pairs(left: &LoxInstance, right: &LoxInstance) -> (r: Vec<LoxType>)
        requires
            left.wf(),
            right.wf(),
            State::<'a>::comparable(left@, right@),
        ensures
            r@.map_values(|v: LoxType| v@) == field_pairs(left@, right@, left@.names.len()),
    {
        let n = left.len();
        let mut r: Vec<LoxType> = Vec::new();
        let mut k: usize = 0;
        assert(r@.map_values(|v: LoxType| v@) =~= field_pairs(left@, right@, 0));
        while k < n
            invariant
                left.wf(),
                right.wf(),
                State::<'a>::comparable(left@, right@),
                k <= n,
                n == left@.names.len(),
                n == left@.values.len(),
                r@.map_values(|v: LoxType| v@) == field_pairs(left@, right@, k as nat),
            decreases n - k,
        {
            let ghost before = r@.map_values(|v: LoxType| v@);
            let own = left.value_at(k);
            assert(right@.has(left@.names[k as int]));
            let other = right.field(left.name_at(k)).unwrap();
            r.push(own);
            r.push(other);
            assert(r@.map_values(|v: LoxType| v@) =~= before.push(own@).push(other@));
            k += 1;
        }
        r
    }

    /// Decides whether the upper two values are equal.
    fn equal(&mut self) -> (action: Action)
        requires
            old(self).wf(),
        ensures
            final(self).wf(),
            (final(self)@, action@) == old(self)@.equal(),
    {
        if self.values.len() < 2 {
            return self.broken();
        }
        let (left, right) = self.take2();
        match left.eq(&right) {
            EqualityQuestion::Decided(b) => {
                self.push(LoxType::Bool(b));
                Action::Continue
            },
            EqualityQuestion::Reading { number, text } => {
                self.push(LoxType::Number(number));
                self.todo(Task::EqualReading);
                self.ask(Waiting::Reading);
                Action::Read(text)
            },
            EqualityQuestion::Instances { left, right } => {
                if left < self.instances.len() && right < self.instances.len() {
                    assert(self@.instances[left as int] == self.instances@[left as int]@);
                    assert(self@.instances[right as int] == self.instances@[right as int]@);
                    if Self::comparable(&self.instances[left], &self.instances[right]) {
                        let n = self.instances[left].len();
                        let mut pairs = Self::pairs(&self.instances[left], &self.instances[right]);
                        let ghost rest = self@;
                        self.values.append(&mut pairs);
                        assert(self@.values =~= rest.values + field_pairs(
                            rest.instances[left as int],
                            rest.instances[right as int],
                            n as nat,
                        ));
                        self.push(LoxType::Bool(true));
                        self.todo(Task::EqualAll(n));
                        Action::Continue
                    } else {
                        self.push(LoxType::Bool(false));
                        Action::Continue
                    }
                } else {
                    self.broken()
                }
            },
        }
    }

    /// Decides whether the remaining pairs of values are all equal.
    fn equal_all(&mut self, pairs: usize) -> (action: Action)
        requires
            old(self).wf(),
        ensures
            final(self).wf(),
            (final(self)@, action@) == old(self)@.equal_all(pairs),
    {
        if self.values.len() < 1 {
            return self.broken();
        }
        match self.top() {
            LoxType::Bool(so_far) => {
                if pairs == 0 {
                    Action::Continue
                } else if self.values.len() < 3 {
                    self.broken()
                } else if so_far {
                    self.pop();
                    self.todo(Task::EqualAll(pairs - 1));
                    self.todo(Task::Equal);
                    Action::Continue
                } else {
                    self.pop();
                    self.take2();
                    assert(self@.values =~= old(self)@.values.take(old(self)@.values.len() - 3));
                    self.push(LoxType::Bool(false));
                    self.todo(Task::EqualAll(pairs - 1));
                    Action::Continue
                }
            },
            _ => self.broken(),
        }
    }

    /// Decides whether a number equals what a string was read as.
    fn equal_reading(&mut self) -> (action: Action)
        requires
            old(self).wf(),
        ensures
            final(self).wf(),
            (final(self)@, action@) == old(self)@.equal_reading(),
    {
        if self.values.len() < 2 {
            return self.broken();
        }
        let (number, reading) = self.take2();
        match (number, reading) {
            (LoxType::Number(number), LoxType::Number(read)) => {
                self.push(LoxType::Bool(number_equals_reading(number, Some(read))));
                Action::Continue
            },
            (LoxType::Number(number), LoxType::Nil) => {
                self.push(LoxType::Bool(number_equals_reading(number, None)));
                Action::Continue
            },
            _ => self.broken(),
        }
    }

    /// Negates the uppermost value, a boolean.
    fn not(&mut self) -> (action: Action)
        requires
            old(self).wf(),
        ensures
            final(self).wf(),
            (final(self)@, action@) == old(self)@.not(),
    {
        match self.pop() {
            Some(LoxType::Bool(b)) => {
                self.push(LoxType::Bool(!b));
                Action::Continue
            },
            _ => self.broken(),
        }
    }

    /// Joins the upper two values, which are texts.
    fn concat(&mut self, reversed: bool) -> (action: Action)
        requires
            old(self).wf(),
        ensures
            final(self).wf(),
            (final(self)@, action@) == old(self)@.concat(reversed),
    {
        if self.values.len() < 2 {
            return self.broken();
        }
        let (lower, upper) = self.take2();
        match (lower, upper) {
            (LoxType::Strang(lower), LoxType::Strang(upper)) => {
                if reversed {
                    self.push(LoxType::Strang(upper.concat(lower.as_str())));
                } else {
                    self.push(LoxType::Strang(lower.concat(upper.as_str())));
                }
                Action::Continue
            },
            _ => self.broken(),
        }
    }

    /// Abandons the run because a call passes the wrong number of arguments.
    fn miscounted(&mut self, paren: &Token, expected: usize, found: usize) -> (action: Action)
        requires
            old(self).wf(),
        ensures
            final(self).wf(),
            (final(self)@, action@) == old(self)@.failed(
                paren@,
                crate::semantics::wrong_arity(expected as nat, found as nat),
            ),
    {
        let mut message = String::from_str("Expected ");
        message.append(decimal(expected).as_str());
        message.append(" arguments, found ");
        message.append(decimal(found).as_str());
        self.fail(paren.clone(), message.as_str())
    }

    /// Enters the body of `function` with the upper `n` values as arguments.
    fn enter_function(&mut self, function: LoxFunction<'a>, n: usize)
        requires
            old(self).wf(),
            old(self)@.values.len() >= n + 1,
            n == function.parameters@.len(),
            function.closure < old(self)@.scopes.len(),
        ensures
            final(self).wf(),
            final(self)@ == (State {
                scopes: old(self)@.scopes.push(
                    Scope {
                        bindings: arguments_bound(
                            function.parameters@,
                            old(self)@.values.skip(old(self)@.values.len() - n),
                            n as nat,
                        ),
                        parent: Some(function.closure),
                        captured: false,
                    },
                ),
                environment: old(self)@.scopes.len() as usize,
                tasks: old(self)@.tasks.push(
                    Task::Called {
                        scope: old(self)@.environment,
                        base: (old(self)@.values.len() - n - 1) as usize,
                    },
                ).push(Task::Run { statements: function.body, next: 0 }),
                ..old(self)@.without(n + 1)
            }),
    {
        let ghost start = self@;
        let ghost passed = start.values.skip(start.values.len() - n);
        let arguments = self.values.split_off(self.values.len() - n);
        self.values.pop();
        assert(self@.values =~= start.values.take(start.values.len() - n - 1));
        assert(arguments@.map_values(|v: LoxType| v@) =~= passed);
        let inner = self.environments.child(function.closure);
        let ghost scopes = start.scopes;
        let mut i: usize = 0;
        while i < n
            invariant
                i <= n,
                n == function.parameters@.len(),
                n == arguments@.len(),
                arguments@.map_values(|v: LoxType| v@) == passed,
                self.environments.wf(),
                inner == scopes.len(),
                self.environments@ == scopes.push(
                    Scope {
                        bindings: arguments_bound(function.parameters@, passed, i as nat),
                        parent: Some(function.closure),
                        captured: false,
                    },
                ),
                self.functions == old(self).functions,
                self.instances == old(self).instances,
                self.locals == old(self).locals,
                self.tasks == old(self).tasks,
                self.environment == old(self).environment,
                self.waiting == old(self).waiting,
                self@.values == start.values.take(start.values.len() - n - 1),
            decreases n - i,
        {
            let ghost before = self.environments@;
            self.environments.define(
                inner,
                function.parameters[i].raw.clone(),
                arguments[i].clone(),
            );
            assert(self.environments@ =~= scopes.push(
                Scope {
                    bindings: arguments_bound(function.parameters@, passed, (i + 1) as nat),
                    parent: Some(function.closure),
                    captured: false,
                },
            ));
            i += 1;
        }
        self.tasks.push(Task::Called { scope: self.environment, base: self.values.len() });
        self.tasks.push(Task::Run { statements: function.body, next: 0 });
        self.environment = inner;
    }

    /// Calls the callee with the arguments above it.
    fn invoke(&mut self, expression: &'a Expr) -> (action: Action)
        requires
            old(self).wf(),
        ensures
            final(self).wf(),
            (final(self)@, action@) == old(self)@.invoke(expression),
    {
        match expression {
            Expr::Call { paren, arguments, .. } => {
                let n = arguments.len();
                if self.values.len() <= n {
                    return self.broken();
                }
                let at = self.values.len() - n - 1;
                match self.values[at].clone() {
                    LoxType::Function(Callable::Clock) => {
                        if n != 0 {
                            self.miscounted(paren, 0, n)
                        } else {
                            self.cut(at);
                            self.ask(Waiting::Number);
                            Action::Clock
                        }
                    },
                    LoxType::Function(Callable::Declared(f)) => {
                        if f < self.functions.len() {
                            let function = self.functions[f];
                            if n != function.arity() {
                                self.miscounted(paren, function.arity(), n)
                            } else if function.closure < self.environments.len() {
                                self.enter_function(function, n);
                                Action::Continue
                            } else {
                                self.broken()
                            }
                        } else {
                            self.broken()
                        }
                    },
                    LoxType::Class(class) => {
                        if n != 0 {
                            self.miscounted(paren, 0, n)
                        } else {
                            let index = self.instances.len();
                            self.instances.push(LoxInstance::new(class));
                            assert(self@.instances =~= old(self)@.instances.push(
                                Object {
                                    class: class.name(),
                                    names: Seq::empty(),
                                    values: Seq::empty(),
                                },
                            ));
                            self.cut(at);
                            self.push(LoxType::Instance(index));
                            Action::Continue
                        }
                    },
                    _ => self.fail(paren.clone(), "Only functions and classes may be called"),
                }
            },
            _ => self.broken(),
        }
    }

    /// Reads a property of the uppermost value.
    fn fetch(&mut self, expression: &'a Expr) -> (action: Action)
        requires
            old(self).wf(),
        ensures
            final(self).wf(),
            (final(self)@, action@) == old(self)@.fetch(expression),
    {
        if self.values.len() < 1 {
            return self.broken();
        }
        match expression {
            Expr::Get { name, .. } => match self.top() {
                LoxType::Instance(i) => {
                    if i < self.instances.len() {
                        assert(self@.instances[i as int] == self.instances@[i as int]@);
                        match self.instances[i].get(name) {
                            Ok(value) => {
                                self.pop();
                                self.push(value);
                                Action::Continue
                            },
                            Err(error) => self.raise(error),
                        }
                    } else {
                        self.broken()
                    }
                },
                _ => self.fail(name.clone(), "Only instances have properties"),
            },
            _ => self.broken(),
        }
    }

    /// Writes a property of an instance.
    fn store(&mut self, expression: &'a Expr) -> (action: Action)
        requires
            old(self).wf(),
        ensures
            final(self).wf(),
            (final(self)@, action@) == old(self)@.store(expression),
    {
        if self.values.len() < 2 {
            return self.broken();
        }
        match expression {
            Expr::SetField { name, .. } => {
                let at = self.values.len() - 2;
                match self.values[at].clone() {
                    LoxType::Instance(i) => {
                        if i < self.instances.len() {
                            let (_, value) = self.take2();
                            let ghost before = self.instances@;
                            assert(self@.instances.len() == self.instances@.len());
                            assert(i < self.instances@.len());
                            assert(self@.instances[i as int] == self.instances@[i as int]@);
                            self.instances[i].set(name, value.clone());
                            assert(forall|j: int|
                                0 <= j < before.len() && j != i ==> self.instances@[j] == before[j]);
                            assert(self@.instances =~= old(self)@.instances.update(
                                i as int,
                                old(self)@.instances[i as int].with(name.raw@, value@),
                            ));
                            self.push(value);
                            Action::Continue
                        } else {
                            self.broken()
                        }
                    },
                    _ => self.fail(name.clone(), "Only instances have properties"),
                }
            },
            _ => self.broken(),
        }
    }

    /// Takes one step of the run. `event` is the host's answer to the action
    /// that the step before returned; the action that this step returns says
    /// what the host is to do before the next one.
    pub fn step(&mut self, event: Event) -> (action: Action)
        requires
            old(self).wf(),
        ensures
            final(self).wf(),
            (final(self)@, action@) == old(self)@.step(event@),
            old(self)@.sound() ==> final(self)@.sound(),
    {
        proof {
            if self@.sound() {
                self.environments.lemma_counted();
                lemma_step_sound(self@, event@);
            }
        }
        match (self.waiting, event) {
            (Waiting::Nothing, Event::Resume) => {},
            (Waiting::Number, Event::Number(bits)) => {
                self.push(LoxType::Number(bits));
            },
            (Waiting::Reading, Event::Reading(Some(bits))) => {
                self.push(LoxType::Number(bits));
            },
            (Waiting::Reading, Event::Reading(None)) => {
                self.push(LoxType::Nil);
            },
            (Waiting::Text, Event::Text(text)) => {
                self.push(LoxType::Strang(text));
            },
            _ => {
                return self.fail(
                    Self::nowhere(),
                    "The host answered what the interpreter did not ask",
                );
            },
        }
        self.ask(Waiting::Nothing);
        match self.tasks.pop() {
            None => Action::Done,
            Some(task) => match task {
                Task::Run { statements, next } => self.run(statements, next),
                Task::Execute(statement) => self.execute(statement),
                Task::Evaluate(expression) => self.evaluate(expression),
                Task::Discard => match self.pop() {
                    Some(_) => Action::Continue,
                    None => self.broken(),
                },
                Task::Show => self.show(),
                Task::Declare(statement) => self.declare(statement),
                Task::Branch(statement) => self.branch(statement),
                Task::Again { statement, scope, base } => self.again(statement, scope, base),
                Task::Test { statement, scope, base } => self.test(statement, scope, base),
                Task::Restore(scope) => self.restore(scope),
                Task::Leave(statement) => self.leave(statement),
                Task::Called { scope, base } => self.called(scope, base),
                Task::Numeral(expression) => self.numeral(expression),
                Task::Assign(expression) => self.assign(expression),
                Task::Decide(expression) => self.decide(expression),
                Task::Apply(expression) => self.apply(expression),
                Task::Negate(expression) => self.negate(expression),
                Task::Invoke(expression) => self.invoke(expression),
                Task::Fetch(expression) => self.fetch(expression),
                Task::Store(expression) => self.store(expression),
                Task::Equal => self.equal(),
                Task::EqualAll(pairs) => self.equal_all(pairs),
                Task::EqualReading => self.equal_reading(),
                Task::Not => self.not(),
                Task::Concat => self.concat(false),
                Task::ConcatReversed => self.concat(true),
            },
        }
    }

    /// The distance that was noted for the variable that `name` refers to.
    pub fn distance(&self, name: &Token) -> (r: Option<usize>)
        requires
            self.wf(),
        ensures
            r == (if self@.locals.contains_key(name.key()) {
                Some(self@.locals[name.key()])
            } else {
                None
            }),
    {
        broadcast use vstd::std_specs::hash::group_hash_axioms;

        match self.locals.get(&name.position()) {
            Some(distance) => Some(*distance),
            None => None,
        }
    }

    /// Takes steps of the run until one asks something of the host, or ends
    /// the run, or until `limit` steps were taken beside the first. `event` is
    /// the host's answer to the action that was returned last.
    pub fn advance(&mut self, event: Event, limit: usize) -> (action: Action)
        requires
            old(self).wf(),
        ensures
            final(self).wf(),
            (final(self)@, action@) == old(self)@.advance(event@, limit as nat),
            old(self)@.sound() ==> final(self)@.sound(),
    {
        let mut action = self.step(event);
        let mut left: usize = limit;
        while left > 0 && matches!(action, Action::Continue)
            invariant
                self.wf(),
                old(self)@.sound() ==> self@.sound(),
                old(self)@.advance(event@, limit as nat) == (if left > 0 && action@ is Continue {
                    self@.advance(Signal::Resume, (left - 1) as nat)
                } else {
                    (self@, action@)
                }),
            decreases left,
        {
            action = self.step(Event::Resume);
            left -= 1;
        }
        action
    }

    /// The number of scopes that the interpreter holds.
    pub fn scopes(&self) -> (r: usize)
        ensures
            r == self@.scopes.len(),
    {
        self.environments.len()
    }
}

} // verus!
