//! The resolver: which scope each reference to a variable means, and whether
//! names, `break` and `return` are used as they may be.

use vstd::prelude::*;
use vstd::string::*;
use crate::common::Token;
use crate::expr::Expr;
use crate::interpreter::Interpreter;
use crate::names::NameMap;
use crate::semantics::State;
use crate::stmt::Stmt;

verus! {

/// What a semantic error is: the token it is reported at, and why.
pub struct Fault {
    pub token: Token,
    pub message: Seq<char>,
}

/// A semantic error: the token it is reported at, and why.
#[derive(Debug)]
pub struct ResolverError {
    pub token: Token,
    pub message: String,
}

impl View for ResolverError {
    type V = Fault;

    open spec fn view(&self) -> Fault {
        Fault { token: self.token, message: self.message@ }
    }
}

impl ResolverError {
    /// The error at `token` that `message` describes.
    pub fn new(token: Token, message: String) -> (r: Self)
        ensures
            r@ == (Fault { token, message: message@ }),
    {
        Self { token, message }
    }
}

/// What the statements being resolved lie in.
#[derive(Debug, PartialEq, Eq, Clone, Copy, Structural)]
pub enum ScopeType {
    Outside,
    Function,
    Loop,
}

/// The scopes around a place in the program, innermost last: for each name
/// declared in a scope, whether its initializer is behind it.
pub type Scopes = Seq<Map<Seq<char>, bool>>;

/// The error of a variable that is used in its own initializer.
pub open spec fn own_initializer() -> Seq<char> {
    "Cannot use a variable in it's own initializer"@
}

/// The error of a name that is declared twice in one scope.
pub open spec fn already_declared() -> Seq<char> {
    "Already a variable with this name in scope"@
}

/// The error of `break` outside a loop.
pub open spec fn stray_break() -> Seq<char> {
    "Can only break from inside a loop."@
}

/// The error of `return` outside a function.
pub open spec fn stray_return() -> Seq<char> {
    "Can only return from a function."@
}

/// What resolving an expression gives: the distances found, and the error
/// that ended it, if one did.
pub struct Found {
    pub distances: Map<u64, usize>,
    pub fault: Option<Fault>,
}

/// What resolving statements gives: the scopes behind them, the distances
/// found, the errors in the order in which they arose, and whether the last of
/// them ended the resolving early.
pub struct Passed {
    pub scopes: Scopes,
    pub distances: Map<u64, usize>,
    pub faults: Seq<Fault>,
    pub aborted: bool,
}

/// The number of scopes between the innermost scope and the nearest scope
/// that declares `name`.
pub open spec fn distance(scopes: Scopes, name: Seq<char>) -> Option<nat>
    decreases scopes.len(),
{
    if scopes.len() == 0 {
        None
    } else if scopes.last().contains_key(name) {
        Some(0)
    } else {
        match distance(scopes.drop_last(), name) {
            Some(d) => Some(d + 1),
            None => None,
        }
    }
}

/// The distance found for the variable that `name` refers to: none where no
/// scope declares it, for then it is taken to be global.
pub open spec fn located(scopes: Scopes, name: &Token) -> Map<u64, usize> {
    match distance(scopes, name.raw@) {
        Some(d) => Map::empty().insert(name.key(), d as usize),
        None => Map::empty(),
    }
}

/// Whether a reference to `name` stands in the initializer of the variable
/// `name` itself: in a scope, the innermost scope has declared the name and
/// not yet defined it; outside every scope, `name` is the variable that is
/// being declared.
pub open spec fn in_own_initializer(scopes: Scopes, pending: Option<Seq<char>>, name: Seq<char>) -> bool {
    if scopes.len() > 0 {
        scopes.last().contains_key(name) && !scopes.last()[name]
    } else {
        pending == Some(name)
    }
}

/// The scopes after `name` was noted in the innermost one, if there is one.
pub open spec fn noted(scopes: Scopes, name: Seq<char>, defined: bool) -> Scopes {
    if scopes.len() > 0 {
        scopes.update(scopes.len() - 1, scopes.last().insert(name, defined))
    } else {
        scopes
    }
}

/// The error of declaring `name` where the innermost scope has it already.
pub open spec fn redeclared(scopes: Scopes, name: &Token) -> Seq<Fault> {
    if scopes.len() > 0 && scopes.last().contains_key(name.raw@) {
        seq![Fault { token: *name, message: already_declared() }]
    } else {
        Seq::empty()
    }
}

impl Found {
    /// Nothing was found and nothing is wrong.
    pub open spec fn nothing() -> Found {
        Found { distances: Map::empty(), fault: None }
    }

    /// `self`, and then `next` unless `self` ended in an error.
    pub open spec fn followed_by(self, next: Found) -> Found {
        if self.fault is Some {
            self
        } else {
            Found {
                distances: self.distances.union_prefer_right(next.distances),
                fault: next.fault,
            }
        }
    }

    /// The same as the outcome of a statement that leaves the scopes as they are.
    pub open spec fn passed(self, scopes: Scopes) -> Passed {
        Passed {
            scopes,
            distances: self.distances,
            faults: match self.fault {
                Some(fault) => seq![fault],
                None => Seq::empty(),
            },
            aborted: self.fault is Some,
        }
    }
}

impl Passed {
    /// Nothing was found, nothing is wrong, and the scopes are `scopes`.
    pub open spec fn nothing(scopes: Scopes) -> Passed {
        Passed { scopes, distances: Map::empty(), faults: Seq::empty(), aborted: false }
    }

    /// The error at `token` ended the resolving; the scopes are `scopes`.
    pub open spec fn failing(scopes: Scopes, token: Token, message: Seq<char>) -> Passed {
        Passed {
            scopes,
            distances: Map::empty(),
            faults: seq![Fault { token, message }],
            aborted: true,
        }
    }

    /// `self`, and then `next` unless `self` ended early.
    pub open spec fn followed_by(self, next: Passed) -> Passed {
        if self.aborted {
            self
        } else {
            Passed {
                scopes: next.scopes,
                distances: self.distances.union_prefer_right(next.distances),
                faults: self.faults + next.faults,
                aborted: next.aborted,
            }
        }
    }

    /// `self`, and then `next` whether or not `self` ended early.
    pub open spec fn and(self, next: Passed) -> Passed {
        Passed {
            scopes: next.scopes,
            distances: self.distances.union_prefer_right(next.distances),
            faults: self.faults + next.faults,
            aborted: self.aborted || next.aborted,
        }
    }

    /// The same, behind which the scopes are `scopes`.
    pub open spec fn with_scopes(self, scopes: Scopes) -> Passed {
        Passed { scopes, ..self }
    }
}

/// Declaring and defining `name`: an error if the innermost scope had it.
pub open spec fn introduced(scopes: Scopes, name: &Token) -> Passed {
    Passed {
        scopes: noted(scopes, name.raw@, true),
        distances: Map::empty(),
        faults: redeclared(scopes, name),
        aborted: false,
    }
}

/// Declaring and defining the parameters from `from` on.
pub open spec fn introduced_all(scopes: Scopes, names: Seq<Token>, from: int) -> Passed
    decreases names.len() - from,
{
    if 0 <= from < names.len() {
        let first = introduced(scopes, &names[from]);
        first.followed_by(introduced_all(first.scopes, names, from + 1))
    } else {
        Passed::nothing(scopes)
    }
}

/// Resolving an expression. A reference to a variable, and an assignment to
/// one, get the distance to the nearest scope that declares the variable. The
/// operands are resolved in order, and the first error ends the resolving.
pub open spec fn resolved_expr(expr: &Expr, scopes: Scopes, pending: Option<Seq<char>>) -> Found
    decreases expr,
{
    match expr {
        Expr::Variable { name } => if in_own_initializer(scopes, pending, name.raw@) {
            Found {
                distances: Map::empty(),
                fault: Some(Fault { token: *name, message: own_initializer() }),
            }
        } else {
            Found { distances: located(scopes, name), fault: None }
        },
        Expr::Assign { name, value } => resolved_expr(value, scopes, pending).followed_by(
            Found { distances: located(scopes, name), fault: None },
        ),
        Expr::Binary { left, right, .. } => resolved_expr(left, scopes, pending).followed_by(
            resolved_expr(right, scopes, pending),
        ),
        Expr::Call { callee, arguments, .. } => resolved_expr(callee, scopes, pending).followed_by(
            resolved_exprs(arguments@, 0, scopes, pending),
        ),
        Expr::Grouping { expression } => resolved_expr(expression, scopes, pending),
        Expr::Literal { .. } => Found::nothing(),
        Expr::Logical { left, right, .. } => resolved_expr(left, scopes, pending).followed_by(
            resolved_expr(right, scopes, pending),
        ),
        Expr::Unary { right, .. } => resolved_expr(right, scopes, pending),
        Expr::Get { object, .. } => resolved_expr(object, scopes, pending),
        Expr::SetField { object, value, .. } => resolved_expr(object, scopes, pending).followed_by(
            resolved_expr(value, scopes, pending),
        ),
    }
}

/// Resolving the expressions from `from` on, in order.
pub open spec fn resolved_exprs(
    exprs: Seq<Expr>,
    from: int,
    scopes: Scopes,
    pending: Option<Seq<char>>,
) -> Found
    decreases exprs, exprs.len() - from,
{
    if 0 <= from < exprs.len() {
        resolved_expr(&exprs[from], scopes, pending).followed_by(
            resolved_exprs(exprs, from + 1, scopes, pending),
        )
    } else {
        Found::nothing()
    }
}

/// Resolving a statement in `scopes` and in `context`.
///
/// A block and a function's body are resolved in a scope of their own, which
/// is gone behind them, whether or not an error ended it early. A variable is
/// declared before its initializer is resolved and defined behind it; a
/// function's and a class's name are declared and defined at once. `break` is
/// an error outside a loop's context, `return` outside a function's.
pub open spec fn resolved_stmt(stmt: &Stmt, scopes: Scopes, context: ScopeType) -> Passed
    decreases stmt,
{
    match stmt {
        Stmt::Block { statements } => resolved_stmts(
            statements@,
            0,
            scopes.push(Map::empty()),
            context,
        ).with_scopes(scopes),
        Stmt::Var { name, initializer } => {
            let declared = Passed {
                scopes: noted(scopes, name.raw@, false),
                distances: Map::empty(),
                faults: redeclared(scopes, name),
                aborted: false,
            };
            let defined = Passed::nothing(noted(scopes, name.raw@, true));
            match initializer {
                Some(initializer) => declared.followed_by(
                    resolved_expr(
                        initializer,
                        declared.scopes,
                        if scopes.len() == 0 {
                            Some(name.raw@)
                        } else {
                            None
                        },
                    ).passed(declared.scopes),
                ).followed_by(defined),
                None => declared.followed_by(defined),
            }
        },
        Stmt::Function { name, parameters, body } => {
            let named = introduced(scopes, name);
            let entered = introduced_all(named.scopes.push(Map::empty()), parameters@, 0);
            named.followed_by(entered).followed_by(
                resolved_stmts(body@, 0, entered.scopes, ScopeType::Function),
            ).with_scopes(named.scopes)
        },
        Stmt::Expression { expression } => resolved_expr(expression, scopes, None).passed(scopes),
        Stmt::If { condition, then_branch, else_branch } => {
            let tested = resolved_expr(condition, scopes, None).passed(scopes);
            let first = resolved_stmt(then_branch, scopes, context);
            match else_branch {
                Some(other) => tested.followed_by(first).followed_by(
                    resolved_stmt(other, first.scopes, context),
                ),
                None => tested.followed_by(first),
            }
        },
        Stmt::While { condition, then_branch, finally_branch } => {
            let tested = resolved_expr(condition, scopes, None).passed(scopes);
            let body = resolved_stmt(then_branch, scopes, ScopeType::Loop);
            match finally_branch {
                Some(clause) => tested.followed_by(body).followed_by(
                    resolved_stmt(clause, body.scopes, ScopeType::Loop),
                ),
                None => tested.followed_by(body),
            }
        },
        Stmt::Print { expression } => resolved_expr(expression, scopes, None).passed(scopes),
        Stmt::Break { token } => if context == ScopeType::Loop {
            Passed::nothing(scopes)
        } else {
            Passed::failing(scopes, *token, stray_break())
        },
        Stmt::Return { token, return_value } => if context == ScopeType::Function {
            match return_value {
                Some(value) => resolved_expr(value, scopes, None).passed(scopes),
                None => Passed::nothing(scopes),
            }
        } else {
            Passed::failing(scopes, *token, stray_return())
        },
        Stmt::Class { name, .. } => introduced(scopes, name),
    }
}

/// Resolving the statements from `from` on, in order, up to the first error
/// that ends a statement early.
pub open spec fn resolved_stmts(stmts: Seq<Stmt>, from: int, scopes: Scopes, context: ScopeType) -> Passed
    decreases stmts, stmts.len() - from,
{
    if 0 <= from < stmts.len() {
        let first = resolved_stmt(&stmts[from], scopes, context);
        first.followed_by(resolved_stmts(stmts, from + 1, first.scopes, context))
    } else {
        Passed::nothing(scopes)
    }
}

/// Resolving a program from its statement `from` on: each statement outside
/// every scope, and the next one also where an error ended the one before.
pub open spec fn resolved_program(stmts: Seq<Stmt>, from: int) -> Passed
    decreases stmts.len() - from,
{
    if 0 <= from < stmts.len() {
        resolved_stmt(&stmts[from], Seq::empty(), ScopeType::Outside).and(
            resolved_program(stmts, from + 1),
        )
    } else {
        Passed::nothing(Seq::empty())
    }
}

/// What noting the distances `found` does to the state of an interpreter.
pub open spec fn noting<'a>(state: State<'a>, found: Map<u64, usize>) -> State<'a> {
    State { locals: state.locals.union_prefer_right(found), ..state }
}

/// Noting distances one after the other is noting all of them; noting none
/// changes nothing.
proof fn lemma_noting<'a>(state: State<'a>, first: Map<u64, usize>, second: Map<u64, usize>)
    ensures
        noting(noting(state, first), second) == noting(state, first.union_prefer_right(second)),
        noting(state, Map::empty()) == state,
        first.union_prefer_right(Map::empty()) == first,
        Map::<u64, usize>::empty().union_prefer_right(first) == first,
{
    assert(state.locals.union_prefer_right(first).union_prefer_right(second)
        =~= state.locals.union_prefer_right(first.union_prefer_right(second)));
    assert(state.locals.union_prefer_right(Map::empty()) =~= state.locals);
    assert(first.union_prefer_right(Map::empty()) =~= first);
    assert(Map::<u64, usize>::empty().union_prefer_right(first) =~= first);
}

/// Whether `after` differs from `before` in its innermost scope at most.
pub open spec fn kept(before: Scopes, after: Scopes) -> bool {
    after.len() == before.len() && forall|i: int|
        0 <= i < before.len() - 1 ==> after[i] == before[i]
}

/// To define a name that was declared is to define it.
proof fn lemma_noted_twice(scopes: Scopes, name: Seq<char>)
    ensures
        noted(noted(scopes, name, false), name, true) == noted(scopes, name, true),
{
    if scopes.len() > 0 {
        assert(scopes.last().insert(name, false).insert(name, true) =~= scopes.last().insert(
            name,
            true,
        ));
        assert(noted(noted(scopes, name, false), name, true) =~= noted(scopes, name, true));
    }
}

/// Parameters are declared in the innermost scope, without distances and
/// without an end before the last.
proof fn lemma_introduced_all(scopes: Scopes, names: Seq<Token>, from: int)
    ensures
        kept(scopes, introduced_all(scopes, names, from).scopes),
        introduced_all(scopes, names, from).distances == Map::<u64, usize>::empty(),
        !introduced_all(scopes, names, from).aborted,
    decreases names.len() - from,
{
    if 0 <= from < names.len() {
        let first = introduced(scopes, &names[from]);
        lemma_introduced_all(first.scopes, names, from + 1);
        let rest = introduced_all(first.scopes, names, from + 1);
        assert(first.distances.union_prefer_right(rest.distances) =~= Map::<u64, usize>::empty());
    }
}

/// The text of the name that is being declared outside every scope.
pub open spec fn text_of(pending: Option<&String>) -> Option<Seq<char>> {
    match pending {
        Some(name) => Some(name@),
        None => None,
    }
}

/// What the resolver did in two parts, one behind the other, it did as a whole.
proof fn lemma_followed<'a>(
    before: &Resolver,
    middle: &Resolver,
    after: &Resolver,
    start: State<'a>,
    state: State<'a>,
    end: State<'a>,
    first: Passed,
    second: Passed,
)
    requires
        middle.went(before, first),
        after.went(middle, second),
        state == noting(start, first.distances),
        end == noting(state, second.distances),
        !first.aborted,
    ensures
        after.went(before, first.followed_by(second)),
        end == noting(start, first.followed_by(second).distances),
{
    lemma_noting(start, first.distances, second.distances);
    assert((before.faults() + first.faults) + second.faults =~= before.faults() + (first.faults
        + second.faults));
}

/// The resolver: it walks the statements of a program, finds for each
/// reference to a variable the distance to the scope that declares it, and
/// reports what is wrong with the program's use of names, of `break` and of
/// `return`.
#[derive(Debug)]
pub struct Resolver {
    scopes: Vec<NameMap<bool>>,
    current_scope: ScopeType,
    errors: Vec<ResolverError>,
}

impl Resolver {
    /// The scopes around the place that the resolver has reached.
    pub closed spec fn scopes(&self) -> Scopes {
        self.scopes@.map_values(|m: NameMap<bool>| m@)
    }

    /// The errors reported so far.
    pub closed spec fn faults(&self) -> Seq<Fault> {
        self.errors@.map_values(|e: ResolverError| e@)
    }

    /// What the place that the resolver has reached lies in.
    pub closed spec fn context(&self) -> ScopeType {
        self.current_scope
    }

    /// The resolver's scopes are well formed.
    pub closed spec fn wf(&self) -> bool {
        forall|i: int| 0 <= i < self.scopes@.len() ==> (#[trigger] self.scopes@[i]).wf()
    }

    /// The resolver stands outside every scope, loop and function.
    pub open spec fn ready(&self) -> bool {
        self.wf() && self.scopes().len() == 0 && self.context() == ScopeType::Outside
    }

    /// The resolver went on from `before` as `passed` says.
    pub open spec fn went(&self, before: &Resolver, passed: Passed) -> bool {
        &&& self.wf()
        &&& self.scopes() == passed.scopes
        &&& self.faults() == before.faults() + passed.faults
        &&& self.context() == before.context()
    }

    /// A resolver outside every scope, with no error reported.
    pub fn new() -> (r: Self)
        ensures
            r.ready(),
            r.faults() == Seq::<Fault>::empty(),
    {
        let r = Self { scopes: Vec::new(), current_scope: ScopeType::Outside, errors: Vec::new() };
        assert(r.faults() =~= Seq::<Fault>::empty());
        r
    }

    /// Whether an error was reported.
    pub fn had_error(&self) -> (r: bool)
        ensures
            r == (self.faults().len() > 0),
    {
        self.errors.len() > 0
    }

    /// The errors reported so far, in the order in which they arose.
    pub fn errors(&self) -> (r: &Vec<ResolverError>)
        ensures
            r@.map_values(|e: ResolverError| e@) == self.faults(),
    {
        &self.errors
    }

    /// Enters a scope.
    fn begin_scope(&mut self)
        requires
            old(self).wf(),
        ensures
            final(self).went(old(self), Passed::nothing(old(self).scopes().push(Map::empty()))),
    {
        self.scopes.push(NameMap::new());
        assert(self.scopes() =~= old(self).scopes().push(Map::empty()));
        assert(self.faults() =~= old(self).faults() + Seq::<Fault>::empty());
    }

    /// Leaves the innermost scope.
    fn end_scope(&mut self)
        requires
            old(self).wf(),
            old(self).scopes().len() > 0,
        ensures
            final(self).went(old(self), Passed::nothing(old(self).scopes().drop_last())),
    {
        self.scopes.pop();
        assert(self.scopes() =~= old(self).scopes().drop_last());
        assert(self.faults() =~= old(self).faults() + Seq::<Fault>::empty());
    }

    /// Reports the error at `token` that `message` describes, and returns it.
    fn error(&mut self, token: &Token, message: &str) -> (r: ResolverError)
        requires
            old(self).wf(),
        ensures
            r@ == (Fault { token: *token, message: message@ }),
            final(self).went(
                old(self),
                Passed {
                    scopes: old(self).scopes(),
                    distances: Map::empty(),
                    faults: seq![r@],
                    aborted: true,
                },
            ),
    {
        self.errors.push(ResolverError::new(token.clone(), String::from_str(message)));
        assert(self.faults() =~= old(self).faults() + seq![Fault { token: *token, message: message@ }]);
        ResolverError::new(token.clone(), String::from_str(message))
    }

    /// Notes in the innermost scope whether `name` is defined.
    fn note(&mut self, name: &Token, defined: bool)
        requires
            old(self).wf(),
        ensures
            final(self).wf(),
            final(self).scopes() == noted(old(self).scopes(), name.raw@, defined),
            final(self).faults() == old(self).faults(),
            final(self).context() == old(self).context(),
            final(self).faults() == old(self).faults(),
            old(self).scopes().len() > 0 && old(self).scopes().last().contains_key(name.raw@)
                ==> final(self).scopes().len() > 0,
    {
        let n = self.scopes.len();
        if n > 0 {
            let ghost before = self.scopes@;
            self.scopes[n - 1].insert(name.raw.clone(), defined);
            assert(forall|i: int| 0 <= i < n - 1 ==> self.scopes@[i] == before[i]);
            assert(self.scopes() =~= noted(old(self).scopes(), name.raw@, defined));
        }
    }

    /// Whether the innermost scope has declared `name`.
    fn declared_here(&self, name: &Token) -> (r: bool)
        requires
            self.wf(),
        ensures
            r == (self.scopes().len() > 0 && self.scopes().last().contains_key(name.raw@)),
    {
        let n = self.scopes.len();
        n > 0 && self.scopes[n - 1].contains_key(&name.raw)
    }

    /// Declares `name` in the innermost scope: its initializer is still to come.
    fn declare(&mut self, name: &Token)
        requires
            old(self).wf(),
        ensures
            final(self).went(
                old(self),
                Passed {
                    scopes: noted(old(self).scopes(), name.raw@, false),
                    distances: Map::empty(),
                    faults: redeclared(old(self).scopes(), name),
                    aborted: false,
                },
            ),
    {
        if self.declared_here(name) {
            self.error(name, "Already a variable with this name in scope");
        } else {
            assert(self.faults() =~= self.faults() + Seq::<Fault>::empty());
        }
        self.note(name, false);
    }

    /// Defines `name` in the innermost scope: its initializer is behind it.
    fn define(&mut self, name: &Token)
        requires
            old(self).wf(),
        ensures
            final(self).went(old(self), Passed::nothing(noted(old(self).scopes(), name.raw@, true))),
    {
        self.note(name, true);
        assert(self.faults() =~= old(self).faults() + Seq::<Fault>::empty());
    }

    /// Declares and defines `name` at once.
    fn introduce(&mut self, name: &Token)
        requires
            old(self).wf(),
        ensures
            final(self).went(old(self), introduced(old(self).scopes(), name)),
    {
        self.declare(name);
        self.note(name, true);
        proof {
            lemma_noted_twice(old(self).scopes(), name.raw@);
        }
    }

    /// The distance from the innermost scope to the nearest scope that
    /// declares `name`, if one does.
    fn distance_of(&self, name: &String) -> (r: Option<usize>)
        requires
            self.wf(),
        ensures
            match r {
                Some(d) => distance(self.scopes(), name@) == Some(d as nat),
                None => distance(self.scopes(), name@) is None,
            },
    {
        let n = self.scopes.len();
        let mut i: usize = n;
        assert(self.scopes().take(n as int) =~= self.scopes());
        while i > 0
            invariant
                self.wf(),
                i <= n,
                n == self.scopes@.len(),
                match distance(self.scopes().take(i as int), name@) {
                    Some(d) => distance(self.scopes(), name@) == Some((d + (n - i)) as nat),
                    None => distance(self.scopes(), name@) is None,
                },
            decreases i,
        {
            let ghost upto = self.scopes().take(i as int);
            assert(upto.last() == self.scopes@[i - 1]@);
            assert(upto.drop_last() =~= self.scopes().take(i - 1));
            if self.scopes[i - 1].contains_key(name) {
                return Some(n - i);
            }
            i -= 1;
        }
        None
    }

    /// Notes the distance of the variable that `name` refers to, if a scope
    /// declares it.
    fn resolve_local(&mut self, interpreter: &mut Interpreter<'_>, name: &Token)
        requires
            old(self).wf(),
            old(interpreter).wf(),
        ensures
            final(self).went(old(self), Passed::nothing(old(self).scopes())),
            final(interpreter).wf(),
            final(interpreter)@ == noting(old(interpreter)@, located(old(self).scopes(), name)),
    {
        proof {
            assert(self.faults() =~= self.faults() + Seq::<Fault>::empty());
        }
        match self.distance_of(&name.raw) {
            Some(depth) => {
                interpreter.resolve(name, depth);
                assert(interpreter@.locals =~= old(interpreter)@.locals.union_prefer_right(
                    located(self.scopes(), name),
                ));
            },
            None => {
                assert(interpreter@.locals =~= old(interpreter)@.locals.union_prefer_right(
                    located(self.scopes(), name),
                ));
            },
        }
    }

    /// Whether a reference to `name` stands in the variable's own initializer.
    fn in_own_initializer(&self, pending: Option<&String>, name: &Token) -> (r: bool)
        requires
            self.wf(),
        ensures
            r == in_own_initializer(self.scopes(), text_of(pending), name.raw@),
    {
        let n = self.scopes.len();
        if n > 0 {
            match self.scopes[n - 1].get(&name.raw) {
                Some(defined) => !*defined,
                None => false,
            }
        } else {
            match pending {
                Some(p) => *p == name.raw,
                None => false,
            }
        }
    }

    /// Resolves an expression.
    fn resolve_expr(
        &mut self,
        interpreter: &mut Interpreter<'_>,
        expr: &Expr,
        pending: Option<&String>,
    ) -> (r: Result<(), ResolverError>)
        requires
            old(self).wf(),
            old(interpreter).wf(),
        ensures
            final(self).went(
                old(self),
                resolved_expr(expr, old(self).scopes(), text_of(pending)).passed(old(self).scopes()),
            ),
            final(interpreter).wf(),
            final(interpreter)@ == noting(
                old(interpreter)@,
                resolved_expr(expr, old(self).scopes(), text_of(pending)).distances,
            ),
            r is Err <==> resolved_expr(expr, old(self).scopes(), text_of(pending)).fault is Some,
        decreases expr,
    {
        let ghost scopes = self.scopes();
        let ghost start = interpreter@;
        proof {
            lemma_noting(start, Map::empty(), Map::empty());
            assert(self.faults() =~= self.faults() + Seq::<Fault>::empty());
        }
        match expr {
            Expr::Variable { name } => {
                if self.in_own_initializer(pending, name) {
                    Err(self.error(name, "Cannot use a variable in it's own initializer"))
                } else {
                    self.resolve_local(interpreter, name);
                    Ok(())
                }
            },
            Expr::Assign { name, value } => {
                self.resolve_expr(interpreter, value, pending)?;
                let ghost middle = *self;
                let ghost state = interpreter@;
                self.resolve_local(interpreter, name);
                proof {
                    lemma_followed(
                        old(self),
                        &middle,
                        self,
                        start,
                        state,
                        interpreter@,
                        resolved_expr(value, scopes, text_of(pending)).passed(scopes),
                        Found { distances: located(scopes, name), fault: None }.passed(scopes),
                    );
                }
                Ok(())
            },
            Expr::Call { callee, arguments, .. } => {
                self.resolve_expr(interpreter, callee, pending)?;
                let ghost middle = *self;
                let ghost state = interpreter@;
                let r = self.resolve_exprs(interpreter, arguments, 0, pending);
                proof {
                    lemma_followed(
                        old(self),
                        &middle,
                        self,
                        start,
                        state,
                        interpreter@,
                        resolved_expr(callee, scopes, text_of(pending)).passed(scopes),
                        resolved_exprs(arguments@, 0, scopes, text_of(pending)).passed(scopes),
                    );
                }
                r
            },
            Expr::Grouping { expression } => self.resolve_expr(interpreter, expression, pending),
            Expr::Literal { .. } => Ok(()),
            Expr::Unary { right, .. } => self.resolve_expr(interpreter, right, pending),
            Expr::Get { object, .. } => self.resolve_expr(interpreter, object, pending),
            Expr::Binary { left: first, right: second, .. }
            | Expr::Logical { left: first, right: second, .. }
            | Expr::SetField { object: first, value: second, .. } => {
                self.resolve_expr(interpreter, first, pending)?;
                let ghost middle = *self;
                let ghost state = interpreter@;
                let r = self.resolve_expr(interpreter, second, pending);
                proof {
                    lemma_followed(
                        old(self),
                        &middle,
                        self,
                        start,
                        state,
                        interpreter@,
                        resolved_expr(first, scopes, text_of(pending)).passed(scopes),
                        resolved_expr(second, scopes, text_of(pending)).passed(scopes),
                    );
                }
                r
            },
        }
    }

    /// Resolves the expressions from `from` on.
    fn resolve_exprs(
        &mut self,
        interpreter: &mut Interpreter<'_>,
        exprs: &Vec<Expr>,
        from: usize,
        pending: Option<&String>,
    ) -> (r: Result<(), ResolverError>)
        requires
            old(self).wf(),
            old(interpreter).wf(),
        ensures
            final(self).went(
                old(self),
                resolved_exprs(exprs@, from as int, old(self).scopes(), text_of(pending)).passed(
                    old(self).scopes(),
                ),
            ),
            final(interpreter).wf(),
            final(interpreter)@ == noting(
                old(interpreter)@,
                resolved_exprs(exprs@, from as int, old(self).scopes(), text_of(pending)).distances,
            ),
            r is Err <==> resolved_exprs(
                exprs@,
                from as int,
                old(self).scopes(),
                text_of(pending),
            ).fault is Some,
        decreases exprs@, exprs@.len() - from,
    {
        let ghost scopes = self.scopes();
        let ghost start = interpreter@;
        if from < exprs.len() {
            self.resolve_expr(interpreter, &exprs[from], pending)?;
            let ghost middle = *self;
            let ghost state = interpreter@;
            let r = self.resolve_exprs(interpreter, exprs, from + 1, pending);
            proof {
                lemma_followed(
                    old(self),
                    &middle,
                    self,
                    start,
                    state,
                    interpreter@,
                    resolved_expr(&exprs@[from as int], scopes, text_of(pending)).passed(scopes),
                    resolved_exprs(exprs@, from + 1, scopes, text_of(pending)).passed(scopes),
                );
            }
            r
        } else {
            proof {
                lemma_noting(start, Map::empty(), Map::empty());
                assert(self.faults() =~= self.faults() + Seq::<Fault>::empty());
            }
            Ok(())
        }
    }

    /// Declares and defines the parameters from `from` on.
    fn introduce_all(&mut self, names: &Vec<Token>, from: usize)
        requires
            old(self).wf(),
        ensures
            final(self).went(old(self), introduced_all(old(self).scopes(), names@, from as int)),
            kept(old(self).scopes(), final(self).scopes()),
        decreases names@.len() - from,
    {
        if from < names.len() {
            self.introduce(&names[from]);
            let ghost middle = *self;
            self.introduce_all(names, from + 1);
            proof {
                let first = introduced(old(self).scopes(), &names@[from as int]);
                let second = introduced_all(first.scopes, names@, from + 1);
                lemma_introduced_all(first.scopes, names@, from + 1);
                assert((old(self).faults() + first.faults) + second.faults =~= old(self).faults() + (
                first.faults + second.faults));
                assert(first.distances.union_prefer_right(second.distances) =~= Map::<
                    u64,
                    usize,
                >::empty());
            }
        } else {
            assert(self.faults() =~= self.faults() + Seq::<Fault>::empty());
        }
    }

    /// Resolves a variable declaration.
    fn resolve_var(
        &mut self,
        interpreter: &mut Interpreter<'_>,
        stmt: &Stmt,
    ) -> (r: Result<(), ResolverError>)
        requires
            old(self).wf(),
            old(interpreter).wf(),
            stmt is Var,
        ensures
            final(self).went(old(self), resolved_stmt(stmt, old(self).scopes(), old(self).context())),
            kept(old(self).scopes(), final(self).scopes()),
            final(interpreter).wf(),
            final(interpreter)@ == noting(
                old(interpreter)@,
                resolved_stmt(stmt, old(self).scopes(), old(self).context()).distances,
            ),
            r is Err <==> resolved_stmt(stmt, old(self).scopes(), old(self).context()).aborted,
    {
        let ghost scopes = self.scopes();
        let ghost start = interpreter@;
        proof {
            lemma_noting(start, Map::empty(), Map::empty());
        }
        match stmt {
            Stmt::Var { name, initializer } => {
                let outside = self.scopes.len() == 0;
                self.declare(name);
                let ghost declared = *self;
                let ghost first = Passed {
                    scopes: noted(scopes, name.raw@, false),
                    distances: Map::empty(),
                    faults: redeclared(scopes, name),
                    aborted: false,
                };
                let ghost last = Passed::nothing(noted(scopes, name.raw@, true));
                match initializer {
                    Some(initializer) => {
                        let r = self.resolve_expr(
                            interpreter,
                            initializer,
                            if outside {
                                Some(&name.raw)
                            } else {
                                None
                            },
                        );
                        let ghost second = resolved_expr(
                            initializer,
                            first.scopes,
                            if scopes.len() == 0 {
                                Some(name.raw@)
                            } else {
                                None
                            },
                        ).passed(first.scopes);
                        proof {
                            lemma_followed(
                                old(self),
                                &declared,
                                self,
                                start,
                                start,
                                interpreter@,
                                first,
                                second,
                            );
                        }
                        if r.is_err() {
                            return r;
                        }
                        let ghost middle = *self;
                        let ghost state = interpreter@;
                        self.define(name);
                        proof {
                            lemma_noted_twice(scopes, name.raw@);
                            lemma_noting(state, Map::empty(), Map::empty());
                            lemma_followed(
                                old(self),
                                &middle,
                                self,
                                start,
                                state,
                                interpreter@,
                                first.followed_by(second),
                                last,
                            );
                        }
                        Ok(())
                    },
                    None => {
                        self.define(name);
                        proof {
                            lemma_noted_twice(scopes, name.raw@);
                            lemma_followed(
                                old(self),
                                &declared,
                                self,
                                start,
                                start,
                                interpreter@,
                                first,
                                last,
                            );
                        }
                        Ok(())
                    },
                }
            },
            _ => Ok(()),
        }
    }

    /// Resolves a function declaration.
    fn resolve_function(
        &mut self,
        interpreter: &mut Interpreter<'_>,
        stmt: &Stmt,
    ) -> (r: Result<(), ResolverError>)
        requires
            old(self).wf(),
            old(interpreter).wf(),
            stmt is Function,
        ensures
            final(self).went(old(self), resolved_stmt(stmt, old(self).scopes(), old(self).context())),
            kept(old(self).scopes(), final(self).scopes()),
            final(interpreter).wf(),
            final(interpreter)@ == noting(
                old(interpreter)@,
                resolved_stmt(stmt, old(self).scopes(), old(self).context()).distances,
            ),
            r is Err <==> resolved_stmt(stmt, old(self).scopes(), old(self).context()).aborted,
        decreases stmt, 0nat,
    {
        let ghost scopes = self.scopes();
        let ghost start = interpreter@;
        match stmt {
            Stmt::Function { name, parameters, body } => {
                self.introduce(name);
                let enclosing = self.current_scope;
                self.current_scope = ScopeType::Function;
                self.begin_scope();
                self.introduce_all(parameters, 0);
                let r = self.resolve_statements(interpreter, body, 0);
                self.end_scope();
                self.current_scope = enclosing;
                proof {
                    let first = introduced(scopes, name);
                    let second = introduced_all(first.scopes.push(Map::empty()), parameters@, 0);
                    let third = resolved_stmts(body@, 0, second.scopes, ScopeType::Function);
                    lemma_introduced_all(first.scopes.push(Map::empty()), parameters@, 0);
                    assert(self.scopes() =~= first.scopes);
                    assert(self.faults() =~= old(self).faults() + ((first.faults + second.faults)
                        + third.faults));
                    assert(first.distances.union_prefer_right(second.distances).union_prefer_right(
                        third.distances,
                    ) =~= third.distances);
                }
                r
            },
            _ => Ok(()),
        }
    }

    /// Resolves an `if` statement.
    fn resolve_if(
        &mut self,
        interpreter: &mut Interpreter<'_>,
        stmt: &Stmt,
    ) -> (r: Result<(), ResolverError>)
        requires
            old(self).wf(),
            old(interpreter).wf(),
            stmt is If,
        ensures
            final(self).went(old(self), resolved_stmt(stmt, old(self).scopes(), old(self).context())),
            kept(old(self).scopes(), final(self).scopes()),
            final(interpreter).wf(),
            final(interpreter)@ == noting(
                old(interpreter)@,
                resolved_stmt(stmt, old(self).scopes(), old(self).context()).distances,
            ),
            r is Err <==> resolved_stmt(stmt, old(self).scopes(), old(self).context()).aborted,
        decreases stmt, 0nat,
    {
        let ghost scopes = self.scopes();
        let ghost context = self.context();
        let ghost start = interpreter@;
        match stmt {
            Stmt::If { condition, then_branch, else_branch } => {
                self.resolve_expr(interpreter, condition, None)?;
                let ghost tested = *self;
                let ghost state = interpreter@;
                let ghost first = resolved_expr(condition, scopes, None).passed(scopes);
                let ghost second = resolved_stmt(then_branch, scopes, context);
                let r = self.resolve_statement(interpreter, then_branch);
                proof {
                    lemma_followed(old(self), &tested, self, start, state, interpreter@, first, second);
                }
                match else_branch {
                    Some(other) => {
                        if r.is_err() {
                            return r;
                        }
                        let ghost middle = *self;
                        let ghost state = interpreter@;
                        let r = self.resolve_statement(interpreter, other);
                        proof {
                            lemma_followed(
                                old(self),
                                &middle,
                                self,
                                start,
                                state,
                                interpreter@,
                                first.followed_by(second),
                                resolved_stmt(other, second.scopes, context),
                            );
                        }
                        r
                    },
                    None => r,
                }
            },
            _ => Ok(()),
        }
    }

    /// Resolves a `while` statement.
    fn resolve_while(
        &mut self,
        interpreter: &mut Interpreter<'_>,
        stmt: &Stmt,
    ) -> (r: Result<(), ResolverError>)
        requires
            old(self).wf(),
            old(interpreter).wf(),
            stmt is While,
        ensures
            final(self).went(old(self), resolved_stmt(stmt, old(self).scopes(), old(self).context())),
            kept(old(self).scopes(), final(self).scopes()),
            final(interpreter).wf(),
            final(interpreter)@ == noting(
                old(interpreter)@,
                resolved_stmt(stmt, old(self).scopes(), old(self).context()).distances,
            ),
            r is Err <==> resolved_stmt(stmt, old(self).scopes(), old(self).context()).aborted,
        decreases stmt, 0nat,
    {
        let ghost scopes = self.scopes();
        let ghost start = interpreter@;
        match stmt {
            Stmt::While { condition, then_branch, finally_branch } => {
                let enclosing = self.current_scope;
                let r = self.resolve_expr(interpreter, condition, None);
                if r.is_err() {
                    return r;
                }
                self.current_scope = ScopeType::Loop;
                let ghost first = resolved_expr(condition, scopes, None).passed(scopes);
                let ghost second = resolved_stmt(then_branch, scopes, ScopeType::Loop);
                let r = self.resolve_statement(interpreter, then_branch);
                proof {
                    assert(self.faults() =~= old(self).faults() + (first.faults + second.faults));
                    lemma_noting(start, first.distances, second.distances);
                }
                match finally_branch {
                    Some(clause) => {
                        if r.is_err() {
                            self.current_scope = enclosing;
                            return r;
                        }
                        let ghost third = resolved_stmt(clause, second.scopes, ScopeType::Loop);
                        let r = self.resolve_statement(interpreter, clause);
                        self.current_scope = enclosing;
                        proof {
                            assert(self.faults() =~= old(self).faults() + ((first.faults
                                + second.faults) + third.faults));
                            lemma_noting(
                                start,
                                first.distances.union_prefer_right(second.distances),
                                third.distances,
                            );
                        }
                        r
                    },
                    None => {
                        self.current_scope = enclosing;
                        r
                    },
                }
            },
            _ => Ok(()),
        }
    }

    /// Resolves a statement.
    fn resolve_statement(
        &mut self,
        interpreter: &mut Interpreter<'_>,
        stmt: &Stmt,
    ) -> (r: Result<(), ResolverError>)
        requires
            old(self).wf(),
            old(interpreter).wf(),
        ensures
            final(self).went(old(self), resolved_stmt(stmt, old(self).scopes(), old(self).context())),
            kept(old(self).scopes(), final(self).scopes()),
            final(interpreter).wf(),
            final(interpreter)@ == noting(
                old(interpreter)@,
                resolved_stmt(stmt, old(self).scopes(), old(self).context()).distances,
            ),
            r is Err <==> resolved_stmt(stmt, old(self).scopes(), old(self).context()).aborted,
        decreases stmt, 1nat,
    {
        let ghost scopes = self.scopes();
        let ghost context = self.context();
        let ghost start = interpreter@;
        proof {
            lemma_noting(start, Map::empty(), Map::empty());
            assert(self.faults() =~= self.faults() + Seq::<Fault>::empty());
        }
        match stmt {
            Stmt::Block { statements } => {
                self.begin_scope();
                let r = self.resolve_statements(interpreter, statements, 0);
                self.end_scope();
                proof {
                    let p = resolved_stmts(statements@, 0, scopes.push(Map::empty()), context);
                    assert(self.scopes() =~= scopes);
                    assert(self.faults() =~= old(self).faults() + p.faults);
                }
                r
            },
            Stmt::Var { .. } => self.resolve_var(interpreter, stmt),
            Stmt::Function { .. } => self.resolve_function(interpreter, stmt),
            Stmt::Expression { expression } => self.resolve_expr(interpreter, expression, None),
            Stmt::If { .. } => self.resolve_if(interpreter, stmt),
            Stmt::While { .. } => self.resolve_while(interpreter, stmt),
            Stmt::Print { expression } => self.resolve_expr(interpreter, expression, None),
            Stmt::Break { token } => {
                if let ScopeType::Loop = self.current_scope {
                    Ok(())
                } else {
                    Err(self.error(token, "Can only break from inside a loop."))
                }
            },
            Stmt::Return { token, return_value } => {
                if let ScopeType::Function = self.current_scope {
                    match return_value {
                        Some(value) => self.resolve_expr(interpreter, value, None),
                        None => Ok(()),
                    }
                } else {
                    Err(self.error(token, "Can only return from a function."))
                }
            },
            Stmt::Class { name, .. } => {
                self.introduce(name);
                Ok(())
            },
        }
    }

    /// Resolves the statements from `from` on, up to the first error.
    fn resolve_statements(
        &mut self,
        interpreter: &mut Interpreter<'_>,
        stmts: &Vec<Stmt>,
        from: usize,
    ) -> (r: Result<(), ResolverError>)
        requires
            old(self).wf(),
            old(interpreter).wf(),
        ensures
            final(self).went(
                old(self),
                resolved_stmts(stmts@, from as int, old(self).scopes(), old(self).context()),
            ),
            kept(old(self).scopes(), final(self).scopes()),
            final(interpreter).wf(),
            final(interpreter)@ == noting(
                old(interpreter)@,
                resolved_stmts(stmts@, from as int, old(self).scopes(), old(self).context()).distances,
            ),
            r is Err <==> resolved_stmts(
                stmts@,
                from as int,
                old(self).scopes(),
                old(self).context(),
            ).aborted,
        decreases stmts@, stmts@.len() - from,
    {
        let ghost scopes = self.scopes();
        let ghost context = self.context();
        let ghost start = interpreter@;
        if from < stmts.len() {
            self.resolve_statement(interpreter, &stmts[from])?;
            let ghost middle = *self;
            let ghost state = interpreter@;
            let r = self.resolve_statements(interpreter, stmts, from + 1);
            proof {
                let first = resolved_stmt(&stmts@[from as int], scopes, context);
                lemma_followed(
                    old(self),
                    &middle,
                    self,
                    start,
                    state,
                    interpreter@,
                    first,
                    resolved_stmts(stmts@, from + 1, first.scopes, context),
                );
            }
            r
        } else {
            proof {
                lemma_noting(start, Map::empty(), Map::empty());
                assert(self.faults() =~= self.faults() + Seq::<Fault>::empty());
            }
            Ok(())
        }
    }

    /// Resolves a program: finds the distance of each reference to a variable
    /// declared in a scope and notes it in the interpreter, and reports the
    /// program's semantic errors. An error ends the resolving of the statement
    /// that it lies in, on the outermost level, and of no other.
    pub fn resolve(&mut self, statements: &Vec<Stmt>, interpreter: &mut Interpreter<'_>)
        requires
            old(self).ready(),
            old(interpreter).wf(),
        ensures
            final(self).ready(),
            final(self).faults() == old(self).faults() + resolved_program(statements@, 0).faults,
            final(interpreter).wf(),
            final(interpreter)@ == noting(
                old(interpreter)@,
                resolved_program(statements@, 0).distances,
            ),
            old(interpreter)@.sound() ==> final(interpreter)@.sound(),
    {
        let ghost start = interpreter@;
        let ghost total = resolved_program(statements@, 0);
        let ghost mut done = Passed::nothing(Seq::empty());
        let mut i: usize = 0;
        proof {
            lemma_noting(start, total.distances, Map::empty());
            assert(self.faults() =~= self.faults() + Seq::<Fault>::empty());
            assert(done.and(resolved_program(statements@, 0)).faults =~= total.faults);
        }
        while i < statements.len()
            invariant
                i <= statements@.len(),
                self.ready(),
                interpreter.wf(),
                self.faults() == old(self).faults() + done.faults,
                interpreter@ == noting(start, done.distances),
                done.and(resolved_program(statements@, i as int)).faults == total.faults,
                done.and(resolved_program(statements@, i as int)).distances == total.distances,
                total == resolved_program(statements@, 0),
            decreases statements@.len() - i,
        {
            let ghost before = *self;
            let ghost state = interpreter@;
            let _ = self.resolve_statement(interpreter, &statements[i]);
            proof {
                let first = resolved_stmt(&statements@[i as int], Seq::empty(), ScopeType::Outside);
                let rest = resolved_program(statements@, i + 1);
                assert(before.scopes() =~= Seq::empty());
                lemma_noting(start, done.distances, first.distances);
                assert((old(self).faults() + done.faults) + first.faults =~= old(self).faults() + (
                done.faults + first.faults));
                assert(done.and(first).and(rest).faults =~= done.and(first.and(rest)).faults);
                assert(done.and(first).and(rest).distances =~= done.and(first.and(rest)).distances);
                done = done.and(first);
            }
            i += 1;
        }
        proof {
            assert(done.faults + Seq::<Fault>::empty() =~= done.faults);
            lemma_noting(start, done.distances, Map::empty());
        }
    }
}

/// To resolve a program a second time changes no distance that resolving it
/// found: the second time finds what the first time found.
pub proof fn lemma_resolve_twice<'a>(state: State<'a>, statements: Seq<Stmt>)
    ensures
        noting(
            noting(state, resolved_program(statements, 0).distances),
            resolved_program(statements, 0).distances,
        ) == noting(state, resolved_program(statements, 0).distances),
{
    let found = resolved_program(statements, 0).distances;
    assert(state.locals.union_prefer_right(found).union_prefer_right(found)
        =~= state.locals.union_prefer_right(found));
}

/// A variable that is declared with a reference to itself as its initializer
/// is rejected, in a scope as outside every scope.
pub proof fn lemma_self_reference(stmt: &Stmt, scopes: Scopes, context: ScopeType)
    requires
        stmt matches Stmt::Var { name, initializer: Some(Expr::Variable { name: used }) }
            && used.raw@ == name.raw@,
    ensures
        resolved_stmt(stmt, scopes, context).aborted,
        stmt matches Stmt::Var { name, initializer: Some(Expr::Variable { name: used }) }
            && resolved_stmt(stmt, scopes, context).faults.last() == (Fault {
            token: *used,
            message: own_initializer(),
        }),
{
}

} // verus!
