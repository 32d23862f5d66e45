//! The grammar: what the parser makes of a sequence of tokens.
//!
//! Each part of the grammar is a function from the tokens and a place among
//! them to what stands at that place, the place behind it, and the errors
//! met. The parser's functions are stated to compute these.

use vstd::prelude::*;
use crate::common::{end_marker, Lexeme, Token, TokenType, LOX_MAX_ARGUMENT_COUNT};
use crate::expr::{Expression, Literal};
use crate::stmt::Statement;

verus! {

/// What a syntax error is: the token it is reported at, and why.
pub struct SyntaxFault {
    pub token: Lexeme,
    pub message: Seq<char>,
}

/// What parsing a part of the program gives: the part, unless a syntax error
/// ended it; the place of the token behind what was read; and the syntax
/// errors, in the order in which they arose.
pub struct Parsed<T> {
    pub value: Option<T>,
    pub next: int,
    pub faults: Seq<SyntaxFault>,
}

impl<T> Parsed<T> {
    /// `value` was parsed without error, up to `next`.
    pub open spec fn ok(value: T, next: int) -> Parsed<T> {
        Parsed { value: Some(value), next, faults: Seq::empty() }
    }

    /// The same, with `value` in place of what was parsed.
    pub open spec fn give<U>(self, value: U) -> Parsed<U> {
        Parsed { value: Some(value), next: self.next, faults: self.faults }
    }

    /// The same, with nothing parsed.
    pub open spec fn fail<U>(self) -> Parsed<U> {
        Parsed { value: None, next: self.next, faults: self.faults }
    }

    /// `self` and behind it `later`, which decides what was parsed.
    pub open spec fn chain<U>(self, later: Parsed<U>) -> Parsed<U> {
        Parsed { value: later.value, next: later.next, faults: self.faults + later.faults }
    }

    /// The same, with one more error reported behind the others.
    pub open spec fn blaming(self, fault: SyntaxFault) -> Parsed<T> {
        Parsed { faults: self.faults.push(fault), ..self }
    }
}

/// The number of tokens from `at` on.
pub open spec fn remaining(tokens: Seq<Token>, at: int) -> nat {
    if at <= tokens.len() {
        (tokens.len() - at) as nat
    } else {
        0
    }
}

/// The kind of the token at `at`, if there is one.
pub open spec fn kind_at(tokens: Seq<Token>, at: int) -> Option<TokenType> {
    if 0 <= at < tokens.len() {
        Some(tokens[at].token_type)
    } else {
        None
    }
}

/// Whether the token at `at` is of kind `kind`.
pub open spec fn at_kind(tokens: Seq<Token>, at: int, kind: TokenType) -> bool {
    kind_at(tokens, at) == Some(kind)
}

/// Whether no token is left at `at` but, at most, the end marker.
pub open spec fn done(tokens: Seq<Token>, at: int) -> bool {
    !(0 <= at < tokens.len()) || tokens[at].token_type == TokenType::EOF
}

/// The place behind the token at `at`, if there is a token.
pub open spec fn taken(tokens: Seq<Token>, at: int) -> int {
    if 0 <= at < tokens.len() {
        at + 1
    } else {
        at
    }
}

/// A place behind `at`: `next`, which is one wherever it matters.
pub open spec fn beyond(at: int, next: int) -> int {
    if next > at {
        next
    } else {
        at + 1
    }
}

/// The error `message` at the token at `at`, or at the end where there is none.
pub open spec fn fault_at(tokens: Seq<Token>, at: int, message: Seq<char>) -> SyntaxFault {
    SyntaxFault {
        token: if 0 <= at < tokens.len() {
            tokens[at]@
        } else {
            end_marker()
        },
        message,
    }
}

/// Nothing was parsed: the token at `at` is taken and blamed.
pub open spec fn rejected<T>(tokens: Seq<Token>, at: int, message: Seq<char>) -> Parsed<T> {
    Parsed { value: None, next: taken(tokens, at), faults: seq![fault_at(tokens, at, message)] }
}

/// Takes the token at `at`, which must be of kind `kind`: any other token is
/// taken and blamed.
pub open spec fn required(tokens: Seq<Token>, at: int, kind: TokenType, message: Seq<char>) -> Parsed<
    Token,
> {
    if at_kind(tokens, at, kind) {
        Parsed::ok(tokens[at], at + 1)
    } else {
        rejected(tokens, at, message)
    }
}

/// The tiers of binary operators, from the loosest to the tightest: `or`,
/// `and`, equality, comparison, terms and factors.
pub open spec fn operator_of(tier: nat, kind: TokenType) -> bool {
    match kind {
        TokenType::Or => tier == 0,
        TokenType::And => tier == 1,
        TokenType::BangEqual | TokenType::EqualEqual => tier == 2,
        TokenType::Greater | TokenType::GreaterEqual | TokenType::Less | TokenType::LessEqual => tier
            == 3,
        TokenType::Minus | TokenType::Plus => tier == 4,
        TokenType::Slash | TokenType::Star => tier == 5,
        _ => false,
    }
}

/// Whether the token at `at` is an operator of tier `tier`.
pub open spec fn at_operator(tokens: Seq<Token>, at: int, tier: nat) -> bool {
    0 <= at < tokens.len() && operator_of(tier, tokens[at].token_type)
}

/// The expression that an operator of tier `tier` makes of its operands.
pub open spec fn combined(tier: nat, left: Expression, operator: Token, right: Expression) -> Expression {
    if tier < 2 {
        Expression::Logical { left: Box::new(left), operator, right: Box::new(right) }
    } else {
        Expression::Binary { left: Box::new(left), right: Box::new(right), operator }
    }
}

/// Where a tier of binary operators stands among the parts of an expression.
pub open spec fn tier_rank(tier: nat) -> nat {
    if tier <= 6 {
        (9 - tier) as nat
    } else {
        3
    }
}

/// An expression: an assignment, or what binds tighter.
pub open spec fn expression(tokens: Seq<Token>, at: int) -> Parsed<Expression>
    decreases remaining(tokens, at), 11nat,
{
    assignment(tokens, at)
}

/// An assignment: what stands left of `=` must be a variable or a property;
/// anything else is reported, and stands for the whole.
pub open spec fn assignment(tokens: Seq<Token>, at: int) -> Parsed<Expression>
    decreases remaining(tokens, at), 10nat,
{
    let target = binary(tokens, at, 0);
    match target.value {
        None => target,
        Some(left) => if at_kind(tokens, target.next, TokenType::Equal) && target.next >= at {
            let value = assignment(tokens, target.next + 1);
            match value.value {
                None => target.chain(value),
                Some(right) => match left {
                    Expression::Variable { name } => target.chain(value).give(
                        Expression::Assign { name, value: Box::new(right) },
                    ),
                    Expression::Get { object, name } => target.chain(value).give(
                        Expression::SetField { object, name, value: Box::new(right) },
                    ),
                    _ => target.chain(value).give(left).blaming(
                        fault_at(tokens, target.next, "Invalid assignment target."@),
                    ),
                },
            }
        } else {
            target
        },
    }
}

/// An operand of the operators of tier `tier`, and the operators of that
/// tier with their right operands behind it.
pub open spec fn binary(tokens: Seq<Token>, at: int, tier: nat) -> Parsed<Expression>
    decreases remaining(tokens, at), tier_rank(tier),
{
    if tier > 5 {
        unary(tokens, at)
    } else {
        let first = binary(tokens, at, tier + 1);
        match first.value {
            None => first,
            Some(left) => first.chain(binary_rest(tokens, beyond(at, first.next), tier, left)),
        }
    }
}

/// The operators of tier `tier` with their right operands from `at` on: each
/// makes the expression so far its left operand.
pub open spec fn binary_rest(tokens: Seq<Token>, at: int, tier: nat, left: Expression) -> Parsed<
    Expression,
>
    decreases remaining(tokens, at), 0nat,
{
    if at_operator(tokens, at, tier) && tier <= 5 {
        let right = binary(tokens, at + 1, tier + 1);
        match right.value {
            None => right.fail(),
            Some(operand) => right.chain(
                binary_rest(
                    tokens,
                    beyond(at, right.next),
                    tier,
                    combined(tier, left, tokens[at], operand),
                ),
            ),
        }
    } else {
        Parsed::ok(left, at)
    }
}

/// `!` or `-` and its operand, which may be another of them; or else a call.
pub open spec fn unary(tokens: Seq<Token>, at: int) -> Parsed<Expression>
    decreases remaining(tokens, at), 2nat,
{
    if at_kind(tokens, at, TokenType::Bang) || at_kind(tokens, at, TokenType::Minus) {
        let right = unary(tokens, at + 1);
        match right.value {
            None => right,
            Some(operand) => right.give(
                Expression::Unary { operator: tokens[at], right: Box::new(operand) },
            ),
        }
    } else {
        call(tokens, at)
    }
}

/// A primary expression, and the calls and property accesses behind it.
pub open spec fn call(tokens: Seq<Token>, at: int) -> Parsed<Expression>
    decreases remaining(tokens, at), 1nat,
{
    let first = primary(tokens, at);
    match first.value {
        None => first,
        Some(callee) => first.chain(call_rest(tokens, beyond(at, first.next), callee)),
    }
}

/// The calls and property accesses from `at` on: each applies to the
/// expression so far. A call is `(`, arguments and `)`, and bears the closing
/// parenthesis; a property access is `.` and a name.
pub open spec fn call_rest(tokens: Seq<Token>, at: int, callee: Expression) -> Parsed<Expression>
    decreases remaining(tokens, at), 0nat,
{
    if at_kind(tokens, at, TokenType::LeftParen) {
        let passed = arguments(tokens, at + 1, at, Seq::empty());
        match passed.value {
            None => passed.fail(),
            Some(list) => {
                let close = required(
                    tokens,
                    passed.next,
                    TokenType::RightParen,
                    "Expect ')' closing function call"@,
                );
                match close.value {
                    None => passed.chain(close).fail(),
                    Some(paren) => passed.chain(close).chain(
                        call_rest(
                            tokens,
                            beyond(at, close.next),
                            Expression::Call { callee: Box::new(callee), paren, arguments: list },
                        ),
                    ),
                }
            },
        }
    } else if at_kind(tokens, at, TokenType::Dot) {
        let name = required(
            tokens,
            at + 1,
            TokenType::Identifier,
            "Expect identifier after '.' operator on object"@,
        );
        match name.value {
            None => name.fail(),
            Some(name_token) => name.chain(
                call_rest(
                    tokens,
                    beyond(at, name.next),
                    Expression::Get { object: Box::new(callee), name: name_token },
                ),
            ),
        }
    } else {
        Parsed::ok(callee, at)
    }
}

/// The arguments of a call from `at` on, up to the closing parenthesis; the
/// call's opening parenthesis is at `open`. More arguments than a call may
/// pass are reported, each at the opening parenthesis, and read on.
pub open spec fn arguments(tokens: Seq<Token>, at: int, open: int, so_far: Seq<Expression>) -> Parsed<
    Seq<Expression>,
>
    decreases remaining(tokens, at), 12nat,
{
    if at_kind(tokens, at, TokenType::RightParen) {
        Parsed::ok(so_far, at)
    } else if !(0 <= at < tokens.len()) {
        expression(tokens, at).fail()
    } else {
        let argument = expression(tokens, at);
        match argument.value {
            None => argument.fail(),
            Some(value) => {
                let list = so_far.push(value);
                let counted = if list.len() > LOX_MAX_ARGUMENT_COUNT {
                    argument.blaming(fault_at(tokens, open, "Exceeded max argument count"@))
                } else {
                    argument
                };
                if at_kind(tokens, counted.next, TokenType::RightParen) {
                    counted.give(list)
                } else {
                    let comma = required(
                        tokens,
                        counted.next,
                        TokenType::Comma,
                        "Expect arguments are comma seperated"@,
                    );
                    match comma.value {
                        None => counted.chain(comma).fail(),
                        Some(_) => counted.chain(comma).chain(
                            arguments(tokens, beyond(at, comma.next), open, list),
                        ),
                    }
                }
            },
        }
    }
}

/// A literal, a variable, or an expression in parentheses. Any other token is
/// taken and blamed, and so is the end of the tokens.
pub open spec fn primary(tokens: Seq<Token>, at: int) -> Parsed<Expression>
    decreases remaining(tokens, at), 0nat,
{
    if 0 <= at < tokens.len() {
        let token = tokens[at];
        match token.token_type {
            TokenType::False => Parsed::ok(
                Expression::Literal { value: Literal::Bool(false) },
                at + 1,
            ),
            TokenType::True => Parsed::ok(Expression::Literal { value: Literal::Bool(true) }, at + 1),
            TokenType::Nil => Parsed::ok(Expression::Literal { value: Literal::Nil }, at + 1),
            TokenType::Number => Parsed::ok(
                Expression::Literal { value: Literal::Number(token.raw) },
                at + 1,
            ),
            TokenType::Strang => Parsed::ok(
                Expression::Literal { value: Literal::Strang(token.raw) },
                at + 1,
            ),
            TokenType::Identifier => Parsed::ok(Expression::Variable { name: token }, at + 1),
            TokenType::LeftParen => {
                let inner = expression(tokens, at + 1);
                match inner.value {
                    None => inner,
                    Some(value) => {
                        let close = required(tokens, inner.next, TokenType::RightParen, "Expect ')'"@);
                        match close.value {
                            None => inner.chain(close).fail(),
                            Some(_) => inner.chain(close).give(
                                Expression::Grouping { expression: Box::new(value) },
                            ),
                        }
                    },
                }
            },
            _ => rejected(tokens, at, "Expected expression"@),
        }
    } else {
        rejected(tokens, at, "Expected expression"@)
    }
}

/// A declaration, or else a statement.
pub open spec fn declaration(tokens: Seq<Token>, at: int) -> Parsed<Statement>
    decreases remaining(tokens, at), 20nat,
{
    if at_kind(tokens, at, TokenType::Var) {
        var_declaration(tokens, at)
    } else if at_kind(tokens, at, TokenType::Funct) {
        function(tokens, at + 1)
    } else if at_kind(tokens, at, TokenType::Class) {
        class_declaration(tokens, at)
    } else {
        statement(tokens, at)
    }
}

/// `var`, a name, an initializer if `=` follows, and `;`.
pub open spec fn var_declaration(tokens: Seq<Token>, at: int) -> Parsed<Statement>
    decreases remaining(tokens, at), 18nat,
{
    let name = required(tokens, taken(tokens, at), TokenType::Identifier, "Expected variable name"@);
    match name.value {
        None => name.fail(),
        Some(variable) => {
            let initializer: Parsed<Option<Expression>> = if at_kind(
                tokens,
                name.next,
                TokenType::Equal,
            ) {
                let value = expression(tokens, name.next + 1);
                match value.value {
                    None => value.fail(),
                    Some(value_of) => value.give(Some(value_of)),
                }
            } else {
                Parsed::ok(None, name.next)
            };
            match initializer.value {
                None => name.chain(initializer).fail(),
                Some(initial) => {
                    let end = required(
                        tokens,
                        initializer.next,
                        TokenType::SemiColon,
                        "Expect ';' after variable declaration"@,
                    );
                    match end.value {
                        None => name.chain(initializer).chain(end).fail(),
                        Some(_) => name.chain(initializer).chain(end).give(
                            Statement::Var { name: variable, initializer: initial },
                        ),
                    }
                },
            }
        },
    }
}

/// A function from its name on: the name, the parameters in parentheses, and
/// the body.
pub open spec fn function(tokens: Seq<Token>, at: int) -> Parsed<Statement>
    decreases remaining(tokens, at), 18nat,
{
    let name = required(
        tokens,
        at,
        TokenType::Identifier,
        "Expect 'funct' keyword be followed by function name"@,
    );
    match name.value {
        None => name.fail(),
        Some(named) => {
            let open = required(
                tokens,
                name.next,
                TokenType::LeftParen,
                "Expect '(' after function name"@,
            );
            match open.value {
                None => name.chain(open).fail(),
                Some(_) => {
                    let list = parameters(tokens, open.next, Seq::empty());
                    match list.value {
                        None => name.chain(open).chain(list).fail(),
                        Some(names) => {
                            let close = required(
                                tokens,
                                list.next,
                                TokenType::RightParen,
                                "Expect function parameter list to be closed with ')'"@,
                            );
                            match close.value {
                                None => name.chain(open).chain(list).chain(close).fail(),
                                Some(_) => {
                                    let body = block(tokens, beyond(at, close.next));
                                    match body.value {
                                        None => name.chain(open).chain(list).chain(close).chain(
                                            body,
                                        ).fail(),
                                        Some(inner) => name.chain(open).chain(list).chain(close).chain(
                                            body,
                                        ).give(
                                            Statement::Function {
                                                name: named,
                                                parameters: names,
                                                body: inner,
                                            },
                                        ),
                                    }
                                },
                            }
                        },
                    }
                },
            }
        },
    }
}

/// The parameters of a function from `at` on, up to the closing parenthesis:
/// tokens with commas between them. Once there are more parameters than a
/// function may have, the token behind each further one is taken and blamed.
pub open spec fn parameters(tokens: Seq<Token>, at: int, so_far: Seq<Token>) -> Parsed<Seq<Token>>
    decreases remaining(tokens, at), 0nat,
{
    if at_kind(tokens, at, TokenType::RightParen) || done(tokens, at) {
        Parsed::ok(so_far, at)
    } else {
        let list = so_far.push(tokens[at]);
        let counted: Parsed<Seq<Token>> = if list.len() > LOX_MAX_ARGUMENT_COUNT {
            Parsed {
                value: Some(list),
                next: taken(tokens, at + 1),
                faults: seq![fault_at(tokens, at + 1, "Exceeded max parameter count"@)],
            }
        } else {
            Parsed::ok(list, at + 1)
        };
        if at_kind(tokens, counted.next, TokenType::RightParen) {
            counted
        } else {
            let comma = required(
                tokens,
                counted.next,
                TokenType::Comma,
                "Expect parameters are comma seperated"@,
            );
            match comma.value {
                None => counted.chain(comma).fail(),
                Some(_) => counted.chain(comma).chain(parameters(tokens, comma.next, list)),
            }
        }
    }
}

/// `class`, a name, and the methods in braces.
pub open spec fn class_declaration(tokens: Seq<Token>, at: int) -> Parsed<Statement>
    decreases remaining(tokens, at), 19nat,
{
    let name = required(
        tokens,
        taken(tokens, at),
        TokenType::Identifier,
        "Expect class name after 'class' keyword"@,
    );
    match name.value {
        None => name.fail(),
        Some(named) => {
            let open = required(
                tokens,
                name.next,
                TokenType::LeftBrace,
                "Expect '{' to open class body"@,
            );
            match open.value {
                None => name.chain(open).fail(),
                Some(_) => {
                    let list = methods(tokens, open.next, Seq::empty());
                    match list.value {
                        None => name.chain(open).chain(list).fail(),
                        Some(declared) => {
                            let close = required(
                                tokens,
                                list.next,
                                TokenType::RightBrace,
                                "Expect '}' to close class body"@,
                            );
                            match close.value {
                                None => name.chain(open).chain(list).chain(close).fail(),
                                Some(_) => name.chain(open).chain(list).chain(close).give(
                                    Statement::Class { name: named, methods: declared },
                                ),
                            }
                        },
                    }
                },
            }
        },
    }
}

/// The methods of a class from `at` on: each is `meth` and a function.
pub open spec fn methods(tokens: Seq<Token>, at: int, so_far: Seq<Statement>) -> Parsed<
    Seq<Statement>,
>
    decreases remaining(tokens, at), 0nat,
{
    if at_kind(tokens, at, TokenType::Meth) {
        let method = function(tokens, at + 1);
        match method.value {
            None => method.fail(),
            Some(declared) => method.chain(
                methods(tokens, beyond(at, method.next), so_far.push(declared)),
            ),
        }
    } else {
        Parsed::ok(so_far, at)
    }
}

/// A statement: the keyword that it begins with says which; `{` begins a
/// block, and anything else an expression statement.
pub open spec fn statement(tokens: Seq<Token>, at: int) -> Parsed<Statement>
    decreases remaining(tokens, at), 17nat,
{
    if at_kind(tokens, at, TokenType::If) {
        if_statement(tokens, at)
    } else if at_kind(tokens, at, TokenType::While) {
        while_statement(tokens, at)
    } else if at_kind(tokens, at, TokenType::For) {
        for_statement(tokens, at)
    } else if at_kind(tokens, at, TokenType::Print) {
        print_statement(tokens, at)
    } else if at_kind(tokens, at, TokenType::Break) {
        break_statement(tokens, at)
    } else if at_kind(tokens, at, TokenType::Return) {
        return_statement(tokens, at)
    } else if at_kind(tokens, at, TokenType::LeftBrace) {
        let inner = block(tokens, at);
        match inner.value {
            None => inner.fail(),
            Some(list) => inner.give(Statement::Block { statements: list }),
        }
    } else {
        expression_statement(tokens, at)
    }
}

/// A statement behind `else` or `finally`, if the token at `at` is `keyword`.
pub open spec fn clause(tokens: Seq<Token>, at: int, keyword: TokenType) -> Parsed<
    Option<Box<Statement>>,
>
    decreases remaining(tokens, at), 18nat,
{
    if at_kind(tokens, at, keyword) {
        let inner = statement(tokens, at + 1);
        match inner.value {
            None => inner.fail(),
            Some(body) => inner.give(Some(Box::new(body))),
        }
    } else {
        Parsed::ok(None, at)
    }
}

/// A condition in parentheses from `at` on, and the statement behind it.
pub open spec fn guarded(
    tokens: Seq<Token>,
    at: int,
    opening: Seq<char>,
    closing: Seq<char>,
) -> Parsed<(Expression, Statement)>
    decreases remaining(tokens, at), 18nat,
{
    let open = required(tokens, at, TokenType::LeftParen, opening);
    match open.value {
        None => open.fail(),
        Some(_) => {
            let condition = expression(tokens, open.next);
            match condition.value {
                None => open.chain(condition).fail(),
                Some(tested) => {
                    let close = required(tokens, condition.next, TokenType::RightParen, closing);
                    match close.value {
                        None => open.chain(condition).chain(close).fail(),
                        Some(_) => {
                            let body = statement(tokens, beyond(at, close.next));
                            match body.value {
                                None => open.chain(condition).chain(close).chain(body).fail(),
                                Some(inner) => open.chain(condition).chain(close).chain(body).give(
                                    (tested, inner),
                                ),
                            }
                        },
                    }
                },
            }
        },
    }
}

/// `if`, a condition in parentheses, a statement, and a statement behind
/// `else` if `else` follows.
pub open spec fn if_statement(tokens: Seq<Token>, at: int) -> Parsed<Statement>
    decreases remaining(tokens, at), 16nat,
{
    if 0 <= at < tokens.len() {
        let head = guarded(
            tokens,
            at + 1,
            "Expect '(' to open 'if' condition"@,
            "Expect ')' to close 'if' condition"@,
        );
        match head.value {
            None => head.fail(),
            Some((condition, then_branch)) => {
                let other = clause(tokens, beyond(at, head.next), TokenType::Else);
                match other.value {
                    None => head.chain(other).fail(),
                    Some(else_branch) => head.chain(other).give(
                        Statement::If { condition, then_branch: Box::new(then_branch), else_branch },
                    ),
                }
            },
        }
    } else {
        rejected(tokens, at, "Expect '(' to open 'if' condition"@)
    }
}

/// `while`, a condition in parentheses, a statement, and a statement behind
/// `finally` if `finally` follows.
pub open spec fn while_statement(tokens: Seq<Token>, at: int) -> Parsed<Statement>
    decreases remaining(tokens, at), 16nat,
{
    if 0 <= at < tokens.len() {
        let head = guarded(
            tokens,
            at + 1,
            "Expect '(' to open 'while' condition"@,
            "Expect ')' to close 'while' condition"@,
        );
        match head.value {
            None => head.fail(),
            Some((condition, then_branch)) => {
                let last = clause(tokens, beyond(at, head.next), TokenType::Finally);
                match last.value {
                    None => head.chain(last).fail(),
                    Some(finally_branch) => head.chain(last).give(
                        Statement::While {
                            condition,
                            then_branch: Box::new(then_branch),
                            finally_branch,
                        },
                    ),
                }
            },
        }
    } else {
        rejected(tokens, at, "Expect '(' to open 'while' condition"@)
    }
}

/// The loop that a `for` statement stands for. The increment runs behind the
/// body, in a block with it; the loop runs while the condition holds, or for
/// ever where there is none; the initializer runs before the loop, in a block
/// with it.
pub open spec fn desugared(
    initializer: Option<Statement>,
    condition: Option<Expression>,
    increment: Option<Expression>,
    body: Statement,
) -> Statement {
    let stepped = match increment {
        Some(step) => Statement::Block {
            statements: seq![body, Statement::Expression { expression: step }],
        },
        None => body,
    };
    let looping = Statement::While {
        condition: match condition {
            Some(tested) => tested,
            None => Expression::Literal { value: Literal::Bool(true) },
        },
        then_branch: Box::new(stepped),
        finally_branch: None,
    };
    match initializer {
        Some(first) => Statement::Block { statements: seq![first, looping] },
        None => looping,
    }
}

/// The initializer of a `for` statement: none where `;` stands, which stays
/// for the condition to end on; else a variable declaration or an expression
/// statement.
pub open spec fn for_initializer(tokens: Seq<Token>, at: int) -> Parsed<Option<Statement>>
    decreases remaining(tokens, at), 19nat,
{
    if at_kind(tokens, at, TokenType::SemiColon) {
        Parsed::ok(None, at)
    } else {
        let first = if at_kind(tokens, at, TokenType::Var) {
            var_declaration(tokens, at)
        } else {
            expression_statement(tokens, at)
        };
        match first.value {
            None => first.fail(),
            Some(declared) => first.give(Some(declared)),
        }
    }
}

/// An expression, unless the token at `at` is of kind `end`.
pub open spec fn optional(tokens: Seq<Token>, at: int, end: TokenType) -> Parsed<Option<Expression>>
    decreases remaining(tokens, at), 12nat,
{
    if at_kind(tokens, at, end) {
        Parsed::ok(None, at)
    } else {
        let value = expression(tokens, at);
        match value.value {
            None => value.fail(),
            Some(value_of) => value.give(Some(value_of)),
        }
    }
}

/// `for`, and in parentheses an initializer, a condition, `;` and an
/// increment, each of which may be missing; then a statement.
pub open spec fn for_statement(tokens: Seq<Token>, at: int) -> Parsed<Statement>
    decreases remaining(tokens, at), 16nat,
{
    let open = required(
        tokens,
        taken(tokens, at),
        TokenType::LeftParen,
        "Expect '(' to open 'for' clause"@,
    );
    match open.value {
        None => open.fail(),
        Some(_) => {
            let first = for_initializer(tokens, open.next);
            match first.value {
                None => open.chain(first).fail(),
                Some(initializer) => {
                    let second = optional(tokens, beyond(at, first.next), TokenType::SemiColon);
                    match second.value {
                        None => open.chain(first).chain(second).fail(),
                        Some(condition) => {
                            let end = required(
                                tokens,
                                second.next,
                                TokenType::SemiColon,
                                "Expect ';' after 'for' loop condition"@,
                            );
                            match end.value {
                                None => open.chain(first).chain(second).chain(end).fail(),
                                Some(_) => {
                                    let third = optional(
                                        tokens,
                                        beyond(at, end.next),
                                        TokenType::RightParen,
                                    );
                                    match third.value {
                                        None => open.chain(first).chain(second).chain(end).chain(
                                            third,
                                        ).fail(),
                                        Some(increment) => {
                                            let close = required(
                                                tokens,
                                                third.next,
                                                TokenType::RightParen,
                                                "Expect ')' to close 'for' clause"@,
                                            );
                                            match close.value {
                                                None => open.chain(first).chain(second).chain(
                                                    end,
                                                ).chain(third).chain(close).fail(),
                                                Some(_) => {
                                                    let body = statement(
                                                        tokens,
                                                        beyond(at, close.next),
                                                    );
                                                    match body.value {
                                                        None => open.chain(first).chain(second).chain(
                                                            end,
                                                        ).chain(third).chain(close).chain(body).fail(),
                                                        Some(inner) => open.chain(first).chain(
                                                            second,
                                                        ).chain(end).chain(third).chain(close).chain(
                                                            body,
                                                        ).give(
                                                            desugared(
                                                                initializer,
                                                                condition,
                                                                increment,
                                                                inner,
                                                            ),
                                                        ),
                                                    }
                                                },
                                            }
                                        },
                                    }
                                },
                            }
                        },
                    }
                },
            }
        },
    }
}

/// `print`, an expression, and `;`.
pub open spec fn print_statement(tokens: Seq<Token>, at: int) -> Parsed<Statement>
    decreases remaining(tokens, at), 16nat,
{
    let value = expression(tokens, taken(tokens, at));
    match value.value {
        None => value.fail(),
        Some(expression) => {
            let end = required(tokens, value.next, TokenType::SemiColon, "Expect ';' after value"@);
            match end.value {
                None => value.chain(end).fail(),
                Some(_) => value.chain(end).give(Statement::Print { expression }),
            }
        },
    }
}

/// `break` and `;`.
pub open spec fn break_statement(tokens: Seq<Token>, at: int) -> Parsed<Statement> {
    let keyword = required(tokens, at, TokenType::Break, "Expect 'break'"@);
    match keyword.value {
        None => keyword.fail(),
        Some(token) => {
            let end = required(tokens, keyword.next, TokenType::SemiColon, "Expect ';' after break"@);
            match end.value {
                None => keyword.chain(end).fail(),
                Some(_) => keyword.chain(end).give(Statement::Break { token }),
            }
        },
    }
}

/// `return`, an expression unless `;` follows at once, and `;`.
pub open spec fn return_statement(tokens: Seq<Token>, at: int) -> Parsed<Statement>
    decreases remaining(tokens, at), 16nat,
{
    let keyword = required(tokens, at, TokenType::Return, "Expect 'return'"@);
    match keyword.value {
        None => keyword.fail(),
        Some(token) => {
            let value = optional(tokens, keyword.next, TokenType::SemiColon);
            match value.value {
                None => keyword.chain(value).fail(),
                Some(return_value) => {
                    let end = required(
                        tokens,
                        value.next,
                        TokenType::SemiColon,
                        "Expect ';' after return statement"@,
                    );
                    match end.value {
                        None => keyword.chain(value).chain(end).fail(),
                        Some(_) => keyword.chain(value).chain(end).give(
                            Statement::Return { token, return_value },
                        ),
                    }
                },
            }
        },
    }
}

/// An expression and `;`.
pub open spec fn expression_statement(tokens: Seq<Token>, at: int) -> Parsed<Statement>
    decreases remaining(tokens, at), 16nat,
{
    let value = expression(tokens, at);
    match value.value {
        None => value.fail(),
        Some(expression) => {
            let end = required(
                tokens,
                value.next,
                TokenType::SemiColon,
                "Expect ';' after expression"@,
            );
            match end.value {
                None => value.chain(end).fail(),
                Some(_) => value.chain(end).give(Statement::Expression { expression }),
            }
        },
    }
}

/// A block: `{`, declarations, and `}`.
pub open spec fn block(tokens: Seq<Token>, at: int) -> Parsed<Seq<Statement>>
    decreases remaining(tokens, at), 15nat,
{
    let open = required(tokens, at, TokenType::LeftBrace, "Expect '{' to open a block"@);
    match open.value {
        None => open.fail(),
        Some(_) => open.chain(block_rest(tokens, open.next, Seq::empty())),
    }
}

/// The declarations of a block from `at` on, up to `}`, which is taken. The
/// end of the tokens ends the block with an error.
pub open spec fn block_rest(tokens: Seq<Token>, at: int, so_far: Seq<Statement>) -> Parsed<
    Seq<Statement>,
>
    decreases remaining(tokens, at), 21nat,
{
    if at_kind(tokens, at, TokenType::RightBrace) || done(tokens, at) {
        let close = required(tokens, at, TokenType::RightBrace, "Expect '}' to close a block"@);
        match close.value {
            None => close.fail(),
            Some(_) => close.give(so_far),
        }
    } else {
        let first = declaration(tokens, at);
        match first.value {
            None => first.fail(),
            Some(declared) => first.chain(
                block_rest(tokens, beyond(at, first.next), so_far.push(declared)),
            ),
        }
    }
}

/// Whether a statement may begin with a token of kind `kind`.
pub open spec fn begins_statement(kind: TokenType) -> bool {
    match kind {
        TokenType::Class | TokenType::Funct | TokenType::Var | TokenType::For | TokenType::If
        | TokenType::While | TokenType::Print | TokenType::Return => true,
        _ => false,
    }
}

/// Where parsing goes on behind a syntax error that was met before `at`: at
/// the first place from `at` on that lies behind a `;`, or at a token that
/// begins a statement, or at the end.
pub open spec fn synchronized(tokens: Seq<Token>, at: int) -> int
    decreases remaining(tokens, at),
{
    if done(tokens, at) {
        at
    } else if at >= 1 && tokens[at - 1].token_type == TokenType::SemiColon {
        at
    } else if begins_statement(tokens[at].token_type) {
        at
    } else {
        synchronized(tokens, at + 1)
    }
}

/// The declarations of a program from `at` on. A syntax error ends the
/// declaration that it lies in; parsing goes on behind it.
pub open spec fn program(tokens: Seq<Token>, at: int, so_far: Seq<Statement>) -> Parsed<
    Seq<Statement>,
>
    decreases remaining(tokens, at), 22nat,
{
    if done(tokens, at) {
        Parsed::ok(so_far, at)
    } else {
        let first = declaration(tokens, at);
        match first.value {
            Some(declared) => first.chain(
                program(tokens, beyond(at, first.next), so_far.push(declared)),
            ),
            None => first.chain(
                program(tokens, beyond(at, synchronized(tokens, beyond(at, first.next))), so_far),
            ),
        }
    }
}

/// Whether what was parsed from `at` on ends at `at` or behind it, and behind
/// it if something was parsed or a token stood at `at`.
pub open spec fn goes_on<T>(parsed: Parsed<T>, tokens: Seq<Token>, at: int) -> bool {
    &&& parsed.next >= at
    &&& (parsed.value is Some || at < tokens.len()) ==> parsed.next > at
}

/// An expression takes a token at least: what follows it in the grammar
/// stands behind it.
pub proof fn lemma_expression_goes_on(tokens: Seq<Token>, at: int)
    requires
        0 <= at,
    ensures
        goes_on(expression(tokens, at), tokens, at),
        goes_on(assignment(tokens, at), tokens, at),
    decreases remaining(tokens, at), 10nat,
{
    lemma_binary_goes_on(tokens, at, 0);
    let target = binary(tokens, at, 0);
    if target.value is Some && at_kind(tokens, target.next, TokenType::Equal) {
        lemma_expression_goes_on(tokens, target.next + 1);
    }
}

/// An operand with its operators takes a token at least.
proof fn lemma_binary_goes_on(tokens: Seq<Token>, at: int, tier: nat)
    requires
        0 <= at,
    ensures
        goes_on(binary(tokens, at, tier), tokens, at),
    decreases remaining(tokens, at), tier_rank(tier),
{
    if tier > 5 {
        lemma_unary_goes_on(tokens, at);
    } else {
        lemma_binary_goes_on(tokens, at, tier + 1);
        let first = binary(tokens, at, tier + 1);
        match first.value {
            Some(left) => {
                lemma_binary_rest_goes_on(tokens, first.next, tier, left);
            },
            None => {},
        }
    }
}

/// Operators with their right operands end behind where they begin, or there.
proof fn lemma_binary_rest_goes_on(tokens: Seq<Token>, at: int, tier: nat, left: Expression)
    requires
        0 <= at,
    ensures
        binary_rest(tokens, at, tier, left).next >= at,
    decreases remaining(tokens, at), 0nat,
{
    if at_operator(tokens, at, tier) && tier <= 5 {
        lemma_binary_goes_on(tokens, at + 1, tier + 1);
        let right = binary(tokens, at + 1, tier + 1);
        match right.value {
            Some(operand) => {
                lemma_binary_rest_goes_on(
                    tokens,
                    right.next,
                    tier,
                    combined(tier, left, tokens[at], operand),
                );
            },
            None => {},
        }
    }
}

/// A unary expression, a call and a primary expression take a token at least.
proof fn lemma_unary_goes_on(tokens: Seq<Token>, at: int)
    requires
        0 <= at,
    ensures
        goes_on(unary(tokens, at), tokens, at),
        goes_on(call(tokens, at), tokens, at),
        goes_on(primary(tokens, at), tokens, at),
    decreases remaining(tokens, at), 2nat,
{
    if at_kind(tokens, at, TokenType::Bang) || at_kind(tokens, at, TokenType::Minus) {
        lemma_unary_goes_on(tokens, at + 1);
    }
    if at_kind(tokens, at, TokenType::LeftParen) {
        lemma_expression_goes_on(tokens, at + 1);
    }
    let first = primary(tokens, at);
    match first.value {
        Some(callee) => {
            lemma_call_rest_goes_on(tokens, first.next, callee);
        },
        None => {},
    }
}

/// Calls and property accesses end behind where they begin, or there.
proof fn lemma_call_rest_goes_on(tokens: Seq<Token>, at: int, callee: Expression)
    requires
        0 <= at,
    ensures
        call_rest(tokens, at, callee).next >= at,
    decreases remaining(tokens, at), 0nat,
{
    if at_kind(tokens, at, TokenType::LeftParen) {
        lemma_arguments_go_on(tokens, at + 1, at, Seq::empty());
        let passed = arguments(tokens, at + 1, at, Seq::empty());
        match passed.value {
            Some(list) => {
                let close = required(
                    tokens,
                    passed.next,
                    TokenType::RightParen,
                    "Expect ')' closing function call"@,
                );
                match close.value {
                    Some(paren) => {
                        lemma_call_rest_goes_on(
                            tokens,
                            close.next,
                            Expression::Call { callee: Box::new(callee), paren, arguments: list },
                        );
                    },
                    None => {},
                }
            },
            None => {},
        }
    } else if at_kind(tokens, at, TokenType::Dot) {
        let name = required(
            tokens,
            at + 1,
            TokenType::Identifier,
            "Expect identifier after '.' operator on object"@,
        );
        match name.value {
            Some(name_token) => {
                lemma_call_rest_goes_on(
                    tokens,
                    name.next,
                    Expression::Get { object: Box::new(callee), name: name_token },
                );
            },
            None => {},
        }
    }
}

/// Arguments end behind where they begin, or there.
proof fn lemma_arguments_go_on(tokens: Seq<Token>, at: int, open: int, so_far: Seq<Expression>)
    requires
        0 <= at,
    ensures
        arguments(tokens, at, open, so_far).next >= at,
    decreases remaining(tokens, at), 12nat,
{
    lemma_expression_goes_on(tokens, at);
    if !at_kind(tokens, at, TokenType::RightParen) && 0 <= at < tokens.len() {
        let argument = expression(tokens, at);
        match argument.value {
            Some(value) => {
                let comma = required(
                    tokens,
                    argument.next,
                    TokenType::Comma,
                    "Expect arguments are comma seperated"@,
                );
                if !at_kind(tokens, argument.next, TokenType::RightParen) && comma.value is Some {
                    lemma_arguments_go_on(tokens, comma.next, open, so_far.push(value));
                }
            },
            None => {},
        }
    }
}

/// A declaration and a statement take a token at least.
pub proof fn lemma_declaration_goes_on(tokens: Seq<Token>, at: int)
    requires
        0 <= at,
    ensures
        goes_on(declaration(tokens, at), tokens, at),
    decreases remaining(tokens, at), 20nat,
{
    if at_kind(tokens, at, TokenType::Var) {
        lemma_var_goes_on(tokens, at);
    } else if at_kind(tokens, at, TokenType::Funct) {
        lemma_function_goes_on(tokens, at + 1);
    } else if at_kind(tokens, at, TokenType::Class) {
        lemma_class_goes_on(tokens, at);
    } else {
        lemma_statement_goes_on(tokens, at);
    }
}

/// A variable declaration takes a token at least.
proof fn lemma_var_goes_on(tokens: Seq<Token>, at: int)
    requires
        0 <= at,
    ensures
        goes_on(var_declaration(tokens, at), tokens, at),
    decreases remaining(tokens, at), 18nat,
{
    let name = required(tokens, taken(tokens, at), TokenType::Identifier, "Expected variable name"@);
    if name.value is Some && at_kind(tokens, name.next, TokenType::Equal) {
        lemma_expression_goes_on(tokens, name.next + 1);
    }
}

/// A function takes a token at least.
proof fn lemma_function_goes_on(tokens: Seq<Token>, at: int)
    requires
        0 <= at,
    ensures
        goes_on(function(tokens, at), tokens, at),
    decreases remaining(tokens, at), 18nat,
{
    let name = required(
        tokens,
        at,
        TokenType::Identifier,
        "Expect 'funct' keyword be followed by function name"@,
    );
    if name.value is Some {
        let open = required(
            tokens,
            name.next,
            TokenType::LeftParen,
            "Expect '(' after function name"@,
        );
        if open.value is Some {
            lemma_parameters_go_on(tokens, open.next, Seq::empty());
            let list = parameters(tokens, open.next, Seq::empty());
            if list.value is Some {
                let close = required(
                    tokens,
                    list.next,
                    TokenType::RightParen,
                    "Expect function parameter list to be closed with ')'"@,
                );
                if close.value is Some {
                    lemma_block_goes_on(tokens, close.next);
                }
            }
        }
    }
}

/// Parameters end behind where they begin, or there.
proof fn lemma_parameters_go_on(tokens: Seq<Token>, at: int, so_far: Seq<Token>)
    requires
        0 <= at,
    ensures
        parameters(tokens, at, so_far).next >= at,
    decreases remaining(tokens, at), 0nat,
{
    if !(at_kind(tokens, at, TokenType::RightParen) || done(tokens, at)) {
        let list = so_far.push(tokens[at]);
        let next = if list.len() > LOX_MAX_ARGUMENT_COUNT {
            taken(tokens, at + 1)
        } else {
            at + 1
        };
        if !at_kind(tokens, next, TokenType::RightParen) && at_kind(tokens, next, TokenType::Comma) {
            lemma_parameters_go_on(tokens, next + 1, list);
        }
    }
}

/// A class declaration takes a token at least.
proof fn lemma_class_goes_on(tokens: Seq<Token>, at: int)
    requires
        0 <= at,
    ensures
        goes_on(class_declaration(tokens, at), tokens, at),
    decreases remaining(tokens, at), 19nat,
{
    let name = required(
        tokens,
        taken(tokens, at),
        TokenType::Identifier,
        "Expect class name after 'class' keyword"@,
    );
    if name.value is Some {
        let open = required(
            tokens,
            name.next,
            TokenType::LeftBrace,
            "Expect '{' to open class body"@,
        );
        if open.value is Some {
            lemma_methods_go_on(tokens, open.next, Seq::empty());
        }
    }
}

/// Methods end behind where they begin, or there.
proof fn lemma_methods_go_on(tokens: Seq<Token>, at: int, so_far: Seq<Statement>)
    requires
        0 <= at,
    ensures
        methods(tokens, at, so_far).next >= at,
    decreases remaining(tokens, at), 0nat,
{
    if at_kind(tokens, at, TokenType::Meth) {
        lemma_function_goes_on(tokens, at + 1);
        let method = function(tokens, at + 1);
        match method.value {
            Some(declared) => {
                lemma_methods_go_on(tokens, method.next, so_far.push(declared));
            },
            None => {},
        }
    }
}

/// A statement takes a token at least.
proof fn lemma_statement_goes_on(tokens: Seq<Token>, at: int)
    requires
        0 <= at,
    ensures
        goes_on(statement(tokens, at), tokens, at),
        goes_on(expression_statement(tokens, at), tokens, at),
    decreases remaining(tokens, at), 17nat,
{
    lemma_expression_goes_on(tokens, at);
    if at_kind(tokens, at, TokenType::If) {
        lemma_guarded_goes_on(
            tokens,
            at + 1,
            "Expect '(' to open 'if' condition"@,
            "Expect ')' to close 'if' condition"@,
        );
        let head = guarded(
            tokens,
            at + 1,
            "Expect '(' to open 'if' condition"@,
            "Expect ')' to close 'if' condition"@,
        );
        if head.value is Some {
            lemma_clause_goes_on(tokens, head.next, TokenType::Else);
        }
    } else if at_kind(tokens, at, TokenType::While) {
        lemma_guarded_goes_on(
            tokens,
            at + 1,
            "Expect '(' to open 'while' condition"@,
            "Expect ')' to close 'while' condition"@,
        );
        let head = guarded(
            tokens,
            at + 1,
            "Expect '(' to open 'while' condition"@,
            "Expect ')' to close 'while' condition"@,
        );
        if head.value is Some {
            lemma_clause_goes_on(tokens, head.next, TokenType::Finally);
        }
    } else if at_kind(tokens, at, TokenType::For) {
        lemma_for_goes_on(tokens, at);
    } else if at_kind(tokens, at, TokenType::Print) {
        lemma_expression_goes_on(tokens, at + 1);
    } else if at_kind(tokens, at, TokenType::Return) {
        lemma_optional_goes_on(tokens, at + 1, TokenType::SemiColon);
    } else if at_kind(tokens, at, TokenType::LeftBrace) {
        lemma_block_goes_on(tokens, at);
    }
}

/// A clause ends behind where it begins, or there.
proof fn lemma_clause_goes_on(tokens: Seq<Token>, at: int, keyword: TokenType)
    requires
        0 <= at,
    ensures
        clause(tokens, at, keyword).next >= at,
    decreases remaining(tokens, at), 18nat,
{
    if at_kind(tokens, at, keyword) {
        lemma_statement_goes_on(tokens, at + 1);
    }
}

/// A condition with its statement takes a token at least.
proof fn lemma_guarded_goes_on(tokens: Seq<Token>, at: int, opening: Seq<char>, closing: Seq<char>)
    requires
        0 <= at,
    ensures
        goes_on(guarded(tokens, at, opening, closing), tokens, at),
    decreases remaining(tokens, at), 18nat,
{
    let open = required(tokens, at, TokenType::LeftParen, opening);
    if open.value is Some {
        lemma_expression_goes_on(tokens, open.next);
        let condition = expression(tokens, open.next);
        if condition.value is Some {
            let close = required(tokens, condition.next, TokenType::RightParen, closing);
            if close.value is Some {
                lemma_statement_goes_on(tokens, close.next);
            }
        }
    }
}

/// An expression that may be missing ends behind where it begins, or there.
proof fn lemma_optional_goes_on(tokens: Seq<Token>, at: int, end: TokenType)
    requires
        0 <= at,
    ensures
        optional(tokens, at, end).next >= at,
    decreases remaining(tokens, at), 12nat,
{
    lemma_expression_goes_on(tokens, at);
}

/// A `for` statement takes a token at least.
proof fn lemma_for_goes_on(tokens: Seq<Token>, at: int)
    requires
        0 <= at < tokens.len(),
    ensures
        goes_on(for_statement(tokens, at), tokens, at),
    decreases remaining(tokens, at), 16nat,
{
    let open = required(tokens, at + 1, TokenType::LeftParen, "Expect '(' to open 'for' clause"@);
    if open.value is Some {
        if !at_kind(tokens, open.next, TokenType::SemiColon) {
            if at_kind(tokens, open.next, TokenType::Var) {
                lemma_var_goes_on(tokens, open.next);
            } else {
                lemma_statement_goes_on(tokens, open.next);
            }
        }
        let first = for_initializer(tokens, open.next);
        if first.value is Some {
            lemma_optional_goes_on(tokens, first.next, TokenType::SemiColon);
            let second = optional(tokens, first.next, TokenType::SemiColon);
            if second.value is Some {
                let end = required(
                    tokens,
                    second.next,
                    TokenType::SemiColon,
                    "Expect ';' after 'for' loop condition"@,
                );
                if end.value is Some {
                    lemma_optional_goes_on(tokens, end.next, TokenType::RightParen);
                    let third = optional(tokens, end.next, TokenType::RightParen);
                    if third.value is Some {
                        let close = required(
                            tokens,
                            third.next,
                            TokenType::RightParen,
                            "Expect ')' to close 'for' clause"@,
                        );
                        if close.value is Some {
                            lemma_statement_goes_on(tokens, close.next);
                        }
                    }
                }
            }
        }
    }
}

/// A block takes a token at least.
proof fn lemma_block_goes_on(tokens: Seq<Token>, at: int)
    requires
        0 <= at,
    ensures
        goes_on(block(tokens, at), tokens, at),
    decreases remaining(tokens, at), 15nat,
{
    if at_kind(tokens, at, TokenType::LeftBrace) {
        lemma_block_rest_goes_on(tokens, at + 1, Seq::empty());
    }
}

/// The declarations of a block end behind where they begin, or there.
proof fn lemma_block_rest_goes_on(tokens: Seq<Token>, at: int, so_far: Seq<Statement>)
    requires
        0 <= at,
    ensures
        block_rest(tokens, at, so_far).next >= at,
    decreases remaining(tokens, at), 21nat,
{
    if !(at_kind(tokens, at, TokenType::RightBrace) || done(tokens, at)) {
        lemma_declaration_goes_on(tokens, at);
        let first = declaration(tokens, at);
        match first.value {
            Some(declared) => {
                lemma_block_rest_goes_on(tokens, first.next, so_far.push(declared));
            },
            None => {},
        }
    }
}

} // verus!
