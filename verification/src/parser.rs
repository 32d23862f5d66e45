//! The parser: from tokens to statements.

use vstd::prelude::*;
use vstd::string::*;
use crate::common::{end_marker, Token, TokenType, LOX_MAX_ARGUMENT_COUNT};
use crate::expr::{expression_of, expressions, Expr, Expression, Literal};
use crate::grammar::{
    arguments, assignment, at_kind, at_operator, begins_statement, beyond, binary, binary_rest,
    block, block_rest, break_statement, call, call_rest, class_declaration, clause, combined,
    declaration, desugared, done, expression, expression_statement, fault_at, for_initializer,
    for_statement, function, guarded, if_statement, kind_at, methods, operator_of, optional,
    parameters, primary, print_statement, program, rejected, remaining, required,
    return_statement, statement, synchronized, taken, tier_rank, unary, var_declaration,
    while_statement, Parsed, SyntaxFault,
};
use crate::stmt::{statement_of, statements, Statement, Stmt};

verus! {

/// A syntax error: the token it is reported at, and why.
#[derive(Debug)]
pub struct ParseError {
    pub token: Token,
    pub message: String,
}

impl View for ParseError {
    type V = SyntaxFault;

    open spec fn view(&self) -> SyntaxFault {
        SyntaxFault { token: self.token@, message: self.message@ }
    }
}

/// Whether `r` is what was parsed: the expression, or an error where there is none.
pub open spec fn yields(r: Result<Expr, ParseError>, value: Option<Expression>) -> bool {
    match r {
        Ok(expr) => value == Some(expr@),
        Err(_) => value is None,
    }
}

/// Whether `r` is what was parsed: the statement, or an error where there is none.
pub open spec fn gives(r: Result<Stmt, ParseError>, value: Option<Statement>) -> bool {
    match r {
        Ok(stmt) => value == Some(stmt@),
        Err(_) => value is None,
    }
}

/// The parser: it reads the tokens of a program from the first on and makes
/// statements of them. It reports every syntax error that it meets.
#[derive(Debug)]
pub struct Parser {
    tokens: Vec<Token>,
    current: usize,
    errors: Vec<ParseError>,
}

/// What was parsed in two parts, one behind the other, was parsed as a whole.
proof fn lemma_chain<T, U>(
    before: &Parser,
    middle: &Parser,
    after: &Parser,
    first: Parsed<T>,
    second: Parsed<U>,
)
    requires
        middle.reached(before, first),
        after.reached(middle, second),
    ensures
        after.reached(before, first.chain(second)),
{
    assert((before.faults() + first.faults) + second.faults =~= before.faults() + (first.faults
        + second.faults));
}

impl Parser {
    /// The tokens of the program.
    pub closed spec fn tokens(&self) -> Seq<Token> {
        self.tokens@
    }

    /// The place of the token that is read next.
    pub closed spec fn at(&self) -> int {
        self.current as int
    }

    /// The syntax errors reported so far.
    pub closed spec fn faults(&self) -> Seq<SyntaxFault> {
        self.errors@.map_values(|e: ParseError| e@)
    }

    /// The parser stands among its tokens or behind the last of them.
    pub closed spec fn wf(&self) -> bool {
        self.current <= self.tokens@.len()
    }

    /// The parser went on from `before` as `parsed` says.
    pub open spec fn reached<T>(&self, before: &Parser, parsed: Parsed<T>) -> bool {
        &&& self.wf()
        &&& self.tokens() == before.tokens()
        &&& self.at() == parsed.next
        &&& self.faults() == before.faults() + parsed.faults
        &&& before.at() <= self.at() <= self.tokens().len()
    }

    /// The parser took a token at least since `before`, if it had one to
    /// take or was to take one.
    pub open spec fn moved(&self, before: &Parser, must: bool) -> bool {
        (must || before.at() < before.tokens().len()) ==> self.at() > before.at()
    }

    /// A parser at the first of `tokens`.
    pub fn new(tokens: Vec<Token>) -> (r: Self)
        ensures
            r.wf(),
            r.tokens() == tokens@,
            r.at() == 0,
            r.faults() == Seq::<SyntaxFault>::empty(),
    {
        let r = Self { tokens, current: 0, errors: Vec::new() };
        assert(r.faults() =~= Seq::<SyntaxFault>::empty());
        r
    }

    /// Whether a syntax error was reported.
    pub fn had_error(&self) -> (r: bool)
        ensures
            r == (self.faults().len() > 0),
    {
        self.errors.len() > 0
    }

    /// The syntax errors reported so far, in the order in which they arose.
    pub fn errors(&self) -> (r: &Vec<ParseError>)
        ensures
            r@.map_values(|e: ParseError| e@) == self.faults(),
    {
        &self.errors
    }

    /// Whether no token is left but, at most, the end marker.
    pub fn is_done(&self) -> (r: bool)
        requires
            self.wf(),
        ensures
            r == done(self.tokens(), self.at()),
            !r ==> self.at() < usize::MAX,
    {
        self.current >= self.tokens.len() || self.tokens[self.current].token_type == TokenType::EOF
    }

    /// Whether the next token is of kind `kind`.
    fn check(&self, kind: TokenType) -> (r: bool)
        requires
            self.wf(),
        ensures
            r == at_kind(self.tokens(), self.at(), kind),
            r ==> self.at() < usize::MAX,
    {
        self.current < self.tokens.len() && self.tokens[self.current].token_type == kind
    }

    /// Takes the next token, if there is one.
    fn consume_token(&mut self) -> (r: Option<Token>)
        requires
            old(self).wf(),
        ensures
            final(self).reached(
                old(self),
                Parsed::<()> {
                    value: None,
                    next: taken(old(self).tokens(), old(self).at()),
                    faults: Seq::empty(),
                },
            ),
            match r {
                Some(token) => old(self).at() < old(self).tokens().len() && token == old(
                    self,
                ).tokens()[old(self).at()],
                None => old(self).at() >= old(self).tokens().len(),
            },
    {
        assert(self.faults() =~= self.faults() + Seq::<SyntaxFault>::empty());
        if self.current < self.tokens.len() {
            let token = self.tokens[self.current].clone();
            self.current += 1;
            Some(token)
        } else {
            None
        }
    }

    /// Reports the error `message` at the token at `at`, or at the end where
    /// there is none, and returns it.
    fn error(&mut self, at: usize, message: &str) -> (r: ParseError)
        requires
            old(self).wf(),
        ensures
            final(self).wf(),
            final(self).tokens() == old(self).tokens(),
            final(self).at() == old(self).at(),
            final(self).faults() == old(self).faults().push(
                fault_at(old(self).tokens(), at as int, message@),
            ),
            r@ == fault_at(old(self).tokens(), at as int, message@),
    {
        let token = if at < self.tokens.len() {
            self.tokens[at].clone()
        } else {
            proof {
                reveal_strlit("");
            }
            let marker = Token::new(TokenType::EOF, "", 0, 0);
            assert(marker.raw@ =~= Seq::<char>::empty());
            marker
        };
        self.errors.push(ParseError { token: token.clone(), message: String::from_str(message) });
        assert(self.faults() =~= old(self).faults().push(
            fault_at(old(self).tokens(), at as int, message@),
        ));
        ParseError { token, message: String::from_str(message) }
    }

    /// Takes the next token and blames it.
    fn reject(&mut self, message: &str) -> (r: ParseError)
        requires
            old(self).wf(),
        ensures
            final(self).reached(
                old(self),
                rejected::<()>(old(self).tokens(), old(self).at(), message@),
            ),
            final(self).moved(old(self), false),
    {
        let at = self.current;
        let r = self.error(at, message);
        if self.current < self.tokens.len() {
            self.current += 1;
        }
        assert(self.faults() =~= old(self).faults() + seq![
            fault_at(old(self).tokens(), at as int, message@),
        ]);
        r
    }

    /// Takes the next token, which must be of kind `required`: any other
    /// token is taken and blamed.
    fn require_consume(
        &mut self,
        kind: TokenType,
        error_message: &str,
    ) -> (r: Result<Token, ParseError>)
        requires
            old(self).wf(),
        ensures
            final(self).reached(
                old(self),
                required(old(self).tokens(), old(self).at(), kind, error_message@),
            ),
            final(self).moved(old(self), r is Ok),
            match r {
                Ok(token) => required(
                    old(self).tokens(),
                    old(self).at(),
                    kind,
                    error_message@,
                ).value == Some(token),
                Err(_) => required(
                    old(self).tokens(),
                    old(self).at(),
                    kind,
                    error_message@,
                ).value is None,
            },
    {
        if self.current < self.tokens.len() && self.tokens[self.current].token_type == kind {
            assert(self.faults() =~= self.faults() + Seq::<SyntaxFault>::empty());
            let token = self.tokens[self.current].clone();
            self.current += 1;
            Ok(token)
        } else {
            Err(self.reject(error_message))
        }
    }

    /// Whether `kind` is an operator of tier `tier`.
    fn is_operator(tier: u8, kind: TokenType) -> (r: bool)
        ensures
            r == operator_of(tier as nat, kind),
    {
        match kind {
            TokenType::Or => tier == 0,
            TokenType::And => tier == 1,
            TokenType::BangEqual | TokenType::EqualEqual => tier == 2,
            TokenType::Greater | TokenType::GreaterEqual | TokenType::Less
            | TokenType::LessEqual => tier == 3,
            TokenType::Minus | TokenType::Plus => tier == 4,
            TokenType::Slash | TokenType::Star => tier == 5,
            _ => false,
        }
    }

    /// An expression.
    fn expression(&mut self) -> (r: Result<Expr, ParseError>)
        requires
            old(self).wf(),
        ensures
            final(self).reached(old(self), expression(old(self).tokens(), old(self).at())),
            final(self).moved(old(self), r is Ok),
            yields(r, expression(old(self).tokens(), old(self).at()).value),
        decreases remaining(old(self).tokens(), old(self).at()), 11nat,
    {
        self.assignment()
    }

    /// An assignment, or what binds tighter.
    fn assignment(&mut self) -> (r: Result<Expr, ParseError>)
        requires
            old(self).wf(),
        ensures
            final(self).reached(old(self), assignment(old(self).tokens(), old(self).at())),
            final(self).moved(old(self), r is Ok),
            yields(r, assignment(old(self).tokens(), old(self).at()).value),
        decreases remaining(old(self).tokens(), old(self).at()), 10nat,
    {
        let ghost tokens = self.tokens();
        let ghost at = self.at();
        let target = self.binary(0)?;
        let ghost first = binary(tokens, at, 0);
        if self.current < self.tokens.len() && self.tokens[self.current].token_type
            == TokenType::Equal {
            let ghost middle = *self;
            let equals = self.current;
            self.current += 1;
            let value = self.assignment();
            let ghost second = assignment(tokens, first.next + 1);
            proof {
                assert(self.reached(&middle, second));
                lemma_chain(old(self), &middle, self, first, second);
            }
            let value = value?;
            match target {
                Expr::Variable { name } => Ok(Expr::Assign { name, value: Box::new(value) }),
                Expr::Get { object, name } => Ok(
                    Expr::SetField { object, name, value: Box::new(value) },
                ),
                other => {
                    self.error(equals, "Invalid assignment target.");
                    proof {
                        assert((old(self).faults() + first.chain(second).faults).push(
                            fault_at(tokens, first.next, "Invalid assignment target."@),
                        ) =~= old(self).faults() + first.chain(second).faults.push(
                            fault_at(tokens, first.next, "Invalid assignment target."@),
                        ));
                    }
                    Ok(other)
                },
            }
        } else {
            Ok(target)
        }
    }

    /// An operand of the operators of tier `tier`, and the operators of that
    /// tier with their right operands behind it. The tiers are, from 0 on:
    /// `or`, `and`, equality, comparison, terms and factors; tier 6 is that
    /// of the unary operators.
    fn binary(&mut self, tier: u8) -> (r: Result<Expr, ParseError>)
        requires
            old(self).wf(),
            tier <= 6,
        ensures
            final(self).reached(old(self), binary(old(self).tokens(), old(self).at(), tier as nat)),
            final(self).moved(old(self), r is Ok),
            yields(r, binary(old(self).tokens(), old(self).at(), tier as nat).value),
        decreases remaining(old(self).tokens(), old(self).at()), tier_rank(tier as nat),
    {
        if tier > 5 {
            self.unary()
        } else {
            let ghost tokens = self.tokens();
            let ghost at = self.at();
            let left = self.binary(tier + 1)?;
            let ghost middle = *self;
            let ghost first = binary(tokens, at, (tier + 1) as nat);
            let r = self.binary_rest(tier, left);
            proof {
                lemma_chain(
                    old(self),
                    &middle,
                    self,
                    first,
                    binary_rest(tokens, first.next, tier as nat, left@),
                );
            }
            r
        }
    }

    /// The operators of tier `tier` with their right operands: each makes the
    /// expression so far its left operand.
    fn binary_rest(&mut self, tier: u8, left: Expr) -> (r: Result<Expr, ParseError>)
        requires
            old(self).wf(),
            tier <= 5,
        ensures
            final(self).reached(
                old(self),
                binary_rest(old(self).tokens(), old(self).at(), tier as nat, left@),
            ),
            yields(r, binary_rest(old(self).tokens(), old(self).at(), tier as nat, left@).value),
        decreases remaining(old(self).tokens(), old(self).at()), 0nat,
    {
        let ghost tokens = self.tokens();
        let ghost at = self.at();
        if self.current < self.tokens.len() && Self::is_operator(
            tier,
            self.tokens[self.current].token_type,
        ) {
            let operator = self.tokens[self.current].clone();
            self.current += 1;
            let ghost start = *self;
            let right = self.binary(tier + 1);
            let ghost first = binary(tokens, at + 1, (tier + 1) as nat);
            proof {
                assert(self.reached(old(self), first));
            }
            let right = right?;
            let ghost middle = *self;
            let joined = if tier < 2 {
                Expr::Logical { left: Box::new(left), operator, right: Box::new(right) }
            } else {
                Expr::Binary { left: Box::new(left), right: Box::new(right), operator }
            };
            let r = self.binary_rest(tier, joined);
            proof {
                lemma_chain(
                    old(self),
                    &middle,
                    self,
                    first,
                    binary_rest(tokens, first.next, tier as nat, joined@),
                );
            }
            r
        } else {
            assert(self.faults() =~= self.faults() + Seq::<SyntaxFault>::empty());
            Ok(left)
        }
    }

    /// `!` or `-` and its operand, or else a call.
    fn unary(&mut self) -> (r: Result<Expr, ParseError>)
        requires
            old(self).wf(),
        ensures
            final(self).reached(old(self), unary(old(self).tokens(), old(self).at())),
            final(self).moved(old(self), r is Ok),
            yields(r, unary(old(self).tokens(), old(self).at()).value),
        decreases remaining(old(self).tokens(), old(self).at()), 2nat,
    {
        if self.current < self.tokens.len() && (self.tokens[self.current].token_type
            == TokenType::Bang || self.tokens[self.current].token_type == TokenType::Minus) {
            let operator = self.tokens[self.current].clone();
            self.current += 1;
            let right = self.unary();
            proof {
                assert(self.reached(old(self), unary(old(self).tokens(), old(self).at() + 1)));
            }
            Ok(Expr::Unary { operator, right: Box::new(right?) })
        } else {
            self.call()
        }
    }

    /// A primary expression, and the calls and property accesses behind it.
    fn call(&mut self) -> (r: Result<Expr, ParseError>)
        requires
            old(self).wf(),
        ensures
            final(self).reached(old(self), call(old(self).tokens(), old(self).at())),
            final(self).moved(old(self), r is Ok),
            yields(r, call(old(self).tokens(), old(self).at()).value),
        decreases remaining(old(self).tokens(), old(self).at()), 1nat,
    {
        let ghost tokens = self.tokens();
        let ghost at = self.at();
        let callee = self.primary()?;
        let ghost middle = *self;
        let ghost first = primary(tokens, at);
        let r = self.call_rest(callee);
        proof {
            lemma_chain(old(self), &middle, self, first, call_rest(tokens, first.next, callee@));
        }
        r
    }

    /// The calls and property accesses behind the expression so far.
    fn call_rest(&mut self, callee: Expr) -> (r: Result<Expr, ParseError>)
        requires
            old(self).wf(),
        ensures
            final(self).reached(old(self), call_rest(old(self).tokens(), old(self).at(), callee@)),
            yields(r, call_rest(old(self).tokens(), old(self).at(), callee@).value),
        decreases remaining(old(self).tokens(), old(self).at()), 0nat,
    {
        let ghost tokens = self.tokens();
        let ghost at = self.at();
        if self.check(TokenType::LeftParen) {
            let open = self.current;
            self.current += 1;
            let list = self.arguments(open, Vec::new());
            let ghost first = arguments(tokens, at + 1, at, Seq::empty());
            proof {
                assert(expressions(Seq::<Expr>::empty()) =~= Seq::<Expression>::empty());
                assert(self.reached(old(self), first));
            }
            let list = list?;
            let ghost middle = *self;
            let paren = self.require_consume(
                TokenType::RightParen,
                "Expect ')' closing function call",
            );
            let ghost second = required(
                tokens,
                first.next,
                TokenType::RightParen,
                "Expect ')' closing function call"@,
            );
            proof {
                lemma_chain(old(self), &middle, self, first, second);
            }
            let paren = paren?;
            let ghost listed = *self;
            let called = Expr::Call {
                callee: Box::new(callee),
                paren,
                arguments: Box::new(list),
            };
            let r = self.call_rest(called);
            proof {
                lemma_chain(
                    old(self),
                    &listed,
                    self,
                    first.chain(second),
                    call_rest(tokens, second.next, called@),
                );
            }
            r
        } else if self.check(TokenType::Dot) {
            self.current += 1;
            let name = self.require_consume(
                TokenType::Identifier,
                "Expect identifier after '.' operator on object",
            );
            let ghost first = required(
                tokens,
                at + 1,
                TokenType::Identifier,
                "Expect identifier after '.' operator on object"@,
            );
            proof {
                assert(self.reached(old(self), first));
            }
            let name = name?;
            let ghost middle = *self;
            let got = Expr::Get { object: Box::new(callee), name };
            let r = self.call_rest(got);
            proof {
                lemma_chain(old(self), &middle, self, first, call_rest(tokens, first.next, got@));
            }
            r
        } else {
            assert(self.faults() =~= self.faults() + Seq::<SyntaxFault>::empty());
            Ok(callee)
        }
    }

    /// The arguments of a call, up to the closing parenthesis; the opening
    /// parenthesis is at `open`.
    fn arguments(&mut self, open: usize, so_far: Vec<Expr>) -> (r: Result<Vec<Expr>, ParseError>)
        requires
            old(self).wf(),
        ensures
            final(self).reached(
                old(self),
                arguments(old(self).tokens(), old(self).at(), open as int, expressions(so_far@)),
            ),
            match r {
                Ok(list) => arguments(
                    old(self).tokens(),
                    old(self).at(),
                    open as int,
                    expressions(so_far@),
                ).value == Some(expressions(list@)),
                Err(_) => arguments(
                    old(self).tokens(),
                    old(self).at(),
                    open as int,
                    expressions(so_far@),
                ).value is None,
            },
        decreases remaining(old(self).tokens(), old(self).at()), 12nat,
    {
        let ghost tokens = self.tokens();
        let ghost at = self.at();
        if self.check(TokenType::RightParen) {
            assert(self.faults() =~= self.faults() + Seq::<SyntaxFault>::empty());
            return Ok(so_far);
        }
        let mut list = so_far;
        let argument = self.expression();
        let ghost first = expression(tokens, at);
        let argument = argument?;
        let ghost before = list@;
        list.push(argument);
        proof {
            assert(expressions(list@) =~= expressions(before).push(argument@));
        }
        let ghost counted = if list.len() > LOX_MAX_ARGUMENT_COUNT {
            first.blaming(fault_at(tokens, open as int, "Exceeded max argument count"@))
        } else {
            first
        };
        if list.len() > LOX_MAX_ARGUMENT_COUNT {
            self.error(open, "Exceeded max argument count");
            assert(self.faults() =~= old(self).faults() + counted.faults);
        }
        if self.check(TokenType::RightParen) {
            return Ok(list);
        }
        let ghost middle = *self;
        let comma = self.require_consume(TokenType::Comma, "Expect arguments are comma seperated");
        let ghost second = required(
            tokens,
            counted.next,
            TokenType::Comma,
            "Expect arguments are comma seperated"@,
        );
        proof {
            lemma_chain(old(self), &middle, self, counted, second);
        }
        comma?;
        let ghost listed = *self;
        let r = self.arguments(open, list);
        proof {
            lemma_chain(
                old(self),
                &listed,
                self,
                counted.chain(second),
                arguments(tokens, second.next, open as int, expressions(list@)),
            );
        }
        r
    }

    /// A literal, a variable, or an expression in parentheses.
    fn primary(&mut self) -> (r: Result<Expr, ParseError>)
        requires
            old(self).wf(),
        ensures
            final(self).reached(old(self), primary(old(self).tokens(), old(self).at())),
            final(self).moved(old(self), r is Ok),
            yields(r, primary(old(self).tokens(), old(self).at()).value),
        decreases remaining(old(self).tokens(), old(self).at()), 0nat,
    {
        let ghost tokens = self.tokens();
        let ghost at = self.at();
        if self.current >= self.tokens.len() {
            return Err(self.reject("Expected expression"));
        }
        proof {
            assert(self.faults() =~= self.faults() + Seq::<SyntaxFault>::empty());
        }
        let token = self.tokens[self.current].clone();
        match token.token_type {
            TokenType::False => {
                self.current += 1;
                Ok(Expr::Literal { value: Literal::Bool(false) })
            },
            TokenType::True => {
                self.current += 1;
                Ok(Expr::Literal { value: Literal::Bool(true) })
            },
            TokenType::Nil => {
                self.current += 1;
                Ok(Expr::Literal { value: Literal::Nil })
            },
            TokenType::Number => {
                self.current += 1;
                Ok(Expr::Literal { value: Literal::Number(token.raw) })
            },
            TokenType::Strang => {
                self.current += 1;
                Ok(Expr::Literal { value: Literal::Strang(token.raw) })
            },
            TokenType::Identifier => {
                self.current += 1;
                Ok(Expr::Variable { name: token })
            },
            TokenType::LeftParen => {
                self.current += 1;
                let inner = self.expression();
                let ghost first = expression(tokens, at + 1);
                proof {
                    assert(self.reached(old(self), first));
                }
                let inner = inner?;
                let ghost middle = *self;
                let close = self.require_consume(TokenType::RightParen, "Expect ')'");
                proof {
                    lemma_chain(
                        old(self),
                        &middle,
                        self,
                        first,
                        required(tokens, first.next, TokenType::RightParen, "Expect ')'"@),
                    );
                }
                close?;
                Ok(Expr::Grouping { expression: Box::new(inner) })
            },
            _ => Err(self.reject("Expected expression")),
        }
    }

    /// A declaration, or else a statement.
    fn declaration(&mut self) -> (r: Result<Stmt, ParseError>)
        requires
            old(self).wf(),
        ensures
            final(self).reached(old(self), declaration(old(self).tokens(), old(self).at())),
            final(self).moved(old(self), r is Ok),
            gives(r, declaration(old(self).tokens(), old(self).at()).value),
        decreases remaining(old(self).tokens(), old(self).at()), 20nat,
    {
        if self.check(TokenType::Var) {
            self.var_declaration()
        } else if self.check(TokenType::Funct) {
            self.function_declaration()
        } else if self.check(TokenType::Class) {
            self.class_declaration()
        } else {
            self.statement()
        }
    }

    /// `var`, a name, an initializer if `=` follows, and `;`.
    fn var_declaration(&mut self) -> (r: Result<Stmt, ParseError>)
        requires
            old(self).wf(),
        ensures
            final(self).reached(old(self), var_declaration(old(self).tokens(), old(self).at())),
            final(self).moved(old(self), r is Ok),
            gives(r, var_declaration(old(self).tokens(), old(self).at()).value),
        decreases remaining(old(self).tokens(), old(self).at()), 18nat,
    {
        let ghost tokens = self.tokens();
        let ghost at = self.at();
        self.consume_token();
        let name = self.require_consume(TokenType::Identifier, "Expected variable name");
        let ghost first = required(
            tokens,
            taken(tokens, at),
            TokenType::Identifier,
            "Expected variable name"@,
        );
        proof {
            assert(self.reached(old(self), first));
        }
        let name = name?;
        let ghost named = *self;
        let mut initializer: Option<Expr> = None;
        let ghost mut second: Parsed<Option<Expression>> = Parsed::ok(None, first.next);
        if self.check(TokenType::Equal) {
            self.current += 1;
            let value = self.expression();
            proof {
                let parsed = expression(tokens, first.next + 1);
                assert(self.reached(&named, parsed));
                second = match parsed.value {
                    None => parsed.fail(),
                    Some(value_of) => parsed.give(Some(value_of)),
                };
                lemma_chain(old(self), &named, self, first, second);
            }
            initializer = Some(value?);
        } else {
            proof {
                assert(self.faults() =~= named.faults() + Seq::<SyntaxFault>::empty());
                lemma_chain(old(self), &named, self, first, second);
            }
        }
        let ghost middle = *self;
        let end = self.require_consume(
            TokenType::SemiColon,
            "Expect ';' after variable declaration",
        );
        proof {
            lemma_chain(
                old(self),
                &middle,
                self,
                first.chain(second),
                required(
                    tokens,
                    second.next,
                    TokenType::SemiColon,
                    "Expect ';' after variable declaration"@,
                ),
            );
        }
        end?;
        Ok(Stmt::Var { name, initializer })
    }

    /// `funct` and a function.
    fn function_declaration(&mut self) -> (r: Result<Stmt, ParseError>)
        requires
            old(self).wf(),
            old(self).at() < old(self).tokens().len(),
        ensures
            final(self).reached(old(self), function(old(self).tokens(), old(self).at() + 1)),
            final(self).moved(old(self), true),
            gives(r, function(old(self).tokens(), old(self).at() + 1).value),
        decreases remaining(old(self).tokens(), old(self).at()), 19nat,
    {
        self.consume_token();
        let ghost middle = *self;
        let r = self.function();
        proof {
            assert(self.faults() =~= old(self).faults() + function(
                old(self).tokens(),
                old(self).at() + 1,
            ).faults);
        }
        r
    }

    /// A function from its name on.
    fn function(&mut self) -> (r: Result<Stmt, ParseError>)
        requires
            old(self).wf(),
        ensures
            final(self).reached(old(self), function(old(self).tokens(), old(self).at())),
            final(self).moved(old(self), r is Ok),
            gives(r, function(old(self).tokens(), old(self).at()).value),
        decreases remaining(old(self).tokens(), old(self).at()), 18nat,
    {
        let ghost tokens = self.tokens();
        let ghost at = self.at();
        let name = self.require_consume(
            TokenType::Identifier,
            "Expect 'funct' keyword be followed by function name",
        )?;
        let ghost first = required(
            tokens,
            at,
            TokenType::Identifier,
            "Expect 'funct' keyword be followed by function name"@,
        );
        let ghost named = *self;
        let open = self.require_consume(TokenType::LeftParen, "Expect '(' after function name");
        let ghost second = first.chain(
            required(tokens, first.next, TokenType::LeftParen, "Expect '(' after function name"@),
        );
        proof {
            lemma_chain(
                old(self),
                &named,
                self,
                first,
                required(tokens, first.next, TokenType::LeftParen, "Expect '(' after function name"@),
            );
        }
        open?;
        let ghost opened = *self;
        let list = self.parameters(Vec::new());
        let ghost third = second.chain(parameters(tokens, second.next, Seq::empty()));
        proof {
            lemma_chain(
                old(self),
                &opened,
                self,
                second,
                parameters(tokens, second.next, Seq::empty()),
            );
        }
        let parameters = list?;
        let ghost listed = *self;
        let close = self.require_consume(
            TokenType::RightParen,
            "Expect function parameter list to be closed with ')'",
        );
        let ghost fourth = third.chain(
            required(
                tokens,
                third.next,
                TokenType::RightParen,
                "Expect function parameter list to be closed with ')'"@,
            ),
        );
        proof {
            lemma_chain(
                old(self),
                &listed,
                self,
                third,
                required(
                    tokens,
                    third.next,
                    TokenType::RightParen,
                    "Expect function parameter list to be closed with ')'"@,
                ),
            );
        }
        close?;
        let ghost closed = *self;
        let body = self.block();
        proof {
            lemma_chain(old(self), &closed, self, fourth, block(tokens, fourth.next));
        }
        let body = body?;
        Ok(Stmt::Function { name, parameters, body: Box::new(body) })
    }

    /// The parameters of a function, up to the closing parenthesis.
    fn parameters(&mut self, so_far: Vec<Token>) -> (r: Result<Vec<Token>, ParseError>)
        requires
            old(self).wf(),
        ensures
            final(self).reached(old(self), parameters(old(self).tokens(), old(self).at(), so_far@)),
            match r {
                Ok(list) => parameters(old(self).tokens(), old(self).at(), so_far@).value == Some(
                    list@,
                ),
                Err(_) => parameters(old(self).tokens(), old(self).at(), so_far@).value is None,
            },
        decreases remaining(old(self).tokens(), old(self).at()), 0nat,
    {
        let ghost tokens = self.tokens();
        let ghost at = self.at();
        proof {
            assert(self.faults() =~= self.faults() + Seq::<SyntaxFault>::empty());
        }
        if self.check(TokenType::RightParen) || self.is_done() {
            return Ok(so_far);
        }
        let mut list = so_far;
        list.push(self.tokens[self.current].clone());
        self.current += 1;
        let ghost counted: Parsed<Seq<Token>> = if list@.len() > LOX_MAX_ARGUMENT_COUNT {
            Parsed {
                value: Some(list@),
                next: taken(tokens, at + 1),
                faults: seq![fault_at(tokens, at + 1, "Exceeded max parameter count"@)],
            }
        } else {
            Parsed::ok(list@, at + 1)
        };
        if list.len() > LOX_MAX_ARGUMENT_COUNT {
            let blamed = self.current;
            self.error(blamed, "Exceeded max parameter count");
            if self.current < self.tokens.len() {
                self.current += 1;
            }
            assert(self.faults() =~= old(self).faults() + counted.faults);
        }
        if self.check(TokenType::RightParen) {
            return Ok(list);
        }
        let ghost middle = *self;
        let comma = self.require_consume(TokenType::Comma, "Expect parameters are comma seperated");
        let ghost second = required(
            tokens,
            counted.next,
            TokenType::Comma,
            "Expect parameters are comma seperated"@,
        );
        proof {
            lemma_chain(old(self), &middle, self, counted, second);
        }
        comma?;
        let ghost listed = *self;
        let r = self.parameters(list);
        proof {
            lemma_chain(
                old(self),
                &listed,
                self,
                counted.chain(second),
                parameters(tokens, second.next, list@),
            );
        }
        r
    }

    /// `class`, a name, and the methods in braces.
    fn class_declaration(&mut self) -> (r: Result<Stmt, ParseError>)
        requires
            old(self).wf(),
        ensures
            final(self).reached(old(self), class_declaration(old(self).tokens(), old(self).at())),
            final(self).moved(old(self), r is Ok),
            gives(r, class_declaration(old(self).tokens(), old(self).at()).value),
        decreases remaining(old(self).tokens(), old(self).at()), 19nat,
    {
        let ghost tokens = self.tokens();
        let ghost at = self.at();
        self.consume_token();
        let name = self.require_consume(
            TokenType::Identifier,
            "Expect class name after 'class' keyword",
        );
        let ghost first = required(
            tokens,
            taken(tokens, at),
            TokenType::Identifier,
            "Expect class name after 'class' keyword"@,
        );
        proof {
            assert(self.reached(old(self), first));
        }
        let name = name?;
        let ghost named = *self;
        let open = self.require_consume(TokenType::LeftBrace, "Expect '{' to open class body");
        let ghost second = first.chain(
            required(tokens, first.next, TokenType::LeftBrace, "Expect '{' to open class body"@),
        );
        proof {
            lemma_chain(
                old(self),
                &named,
                self,
                first,
                required(tokens, first.next, TokenType::LeftBrace, "Expect '{' to open class body"@),
            );
        }
        open?;
        let ghost opened = *self;
        let list = self.methods(Vec::new());
        let ghost third = second.chain(methods(tokens, second.next, Seq::empty()));
        proof {
            assert(statements(Seq::<Stmt>::empty()) =~= Seq::<Statement>::empty());
            lemma_chain(old(self), &opened, self, second, methods(tokens, second.next, Seq::empty()));
        }
        let methods = list?;
        let ghost listed = *self;
        let close = self.require_consume(TokenType::RightBrace, "Expect '}' to close class body");
        proof {
            lemma_chain(
                old(self),
                &listed,
                self,
                third,
                required(tokens, third.next, TokenType::RightBrace, "Expect '}' to close class body"@),
            );
        }
        close?;
        Ok(Stmt::Class { name, methods: Box::new(methods) })
    }

    /// The methods of a class.
    fn methods(&mut self, so_far: Vec<Stmt>) -> (r: Result<Vec<Stmt>, ParseError>)
        requires
            old(self).wf(),
        ensures
            final(self).reached(
                old(self),
                methods(old(self).tokens(), old(self).at(), statements(so_far@)),
            ),
            match r {
                Ok(list) => methods(old(self).tokens(), old(self).at(), statements(so_far@)).value
                    == Some(statements(list@)),
                Err(_) => methods(
                    old(self).tokens(),
                    old(self).at(),
                    statements(so_far@),
                ).value is None,
            },
        decreases remaining(old(self).tokens(), old(self).at()), 0nat,
    {
        let ghost tokens = self.tokens();
        let ghost at = self.at();
        if self.check(TokenType::Meth) {
            self.current += 1;
            let method = self.function();
            let ghost first = function(tokens, at + 1);
            proof {
                assert(self.reached(old(self), first));
            }
            let method = method?;
            let ghost middle = *self;
            let mut list = so_far;
            list.push(method);
            proof {
                assert(statements(list@) =~= statements(so_far@).push(method@));
            }
            let r = self.methods(list);
            proof {
                lemma_chain(
                    old(self),
                    &middle,
                    self,
                    first,
                    methods(tokens, first.next, statements(list@)),
                );
            }
            r
        } else {
            assert(self.faults() =~= self.faults() + Seq::<SyntaxFault>::empty());
            Ok(so_far)
        }
    }

    /// A statement.
    fn statement(&mut self) -> (r: Result<Stmt, ParseError>)
        requires
            old(self).wf(),
        ensures
            final(self).reached(old(self), statement(old(self).tokens(), old(self).at())),
            final(self).moved(old(self), r is Ok),
            gives(r, statement(old(self).tokens(), old(self).at()).value),
        decreases remaining(old(self).tokens(), old(self).at()), 17nat,
    {
        if self.check(TokenType::If) {
            self.if_statement()
        } else if self.check(TokenType::While) {
            self.while_statement()
        } else if self.check(TokenType::For) {
            self.for_statement()
        } else if self.check(TokenType::Print) {
            self.print_statement()
        } else if self.check(TokenType::Break) {
            self.break_statement()
        } else if self.check(TokenType::Return) {
            self.return_statement()
        } else if self.check(TokenType::LeftBrace) {
            Ok(Stmt::Block { statements: Box::new(self.block()?) })
        } else {
            self.expression_statement()
        }
    }

    /// A statement behind `else` or `finally`, if the next token is `keyword`.
    fn clause(&mut self, keyword: TokenType) -> (r: Result<Option<Box<Stmt>>, ParseError>)
        requires
            old(self).wf(),
        ensures
            final(self).reached(old(self), clause(old(self).tokens(), old(self).at(), keyword)),
            match r {
                Ok(Some(body)) => clause(old(self).tokens(), old(self).at(), keyword).value == Some(
                    Some(Box::new(body@)),
                ),
                Ok(None) => clause(old(self).tokens(), old(self).at(), keyword).value == Some(
                    None::<Box<Statement>>,
                ),
                Err(_) => clause(old(self).tokens(), old(self).at(), keyword).value is None,
            },
        decreases remaining(old(self).tokens(), old(self).at()), 18nat,
    {
        if self.check(keyword) {
            self.current += 1;
            let body = self.statement();
            proof {
                assert(self.reached(old(self), statement(old(self).tokens(), old(self).at() + 1)));
            }
            Ok(Some(Box::new(body?)))
        } else {
            assert(self.faults() =~= self.faults() + Seq::<SyntaxFault>::empty());
            Ok(None)
        }
    }

    /// A condition in parentheses and the statement behind it.
    fn guarded(&mut self, opening: &str, closing: &str) -> (r: Result<(Expr, Stmt), ParseError>)
        requires
            old(self).wf(),
        ensures
            final(self).reached(
                old(self),
                guarded(old(self).tokens(), old(self).at(), opening@, closing@),
            ),
            final(self).moved(old(self), r is Ok),
            match r {
                Ok((condition, body)) => guarded(
                    old(self).tokens(),
                    old(self).at(),
                    opening@,
                    closing@,
                ).value == Some((condition@, body@)),
                Err(_) => guarded(old(self).tokens(), old(self).at(), opening@, closing@).value is None,
            },
        decreases remaining(old(self).tokens(), old(self).at()), 18nat,
    {
        let ghost tokens = self.tokens();
        let ghost at = self.at();
        self.require_consume(TokenType::LeftParen, opening)?;
        let ghost first = required(tokens, at, TokenType::LeftParen, opening@);
        let ghost opened = *self;
        let condition = self.expression();
        let ghost second = first.chain(expression(tokens, first.next));
        proof {
            lemma_chain(old(self), &opened, self, first, expression(tokens, first.next));
        }
        let condition = condition?;
        let ghost tested = *self;
        let close = self.require_consume(TokenType::RightParen, closing);
        let ghost third = second.chain(required(tokens, second.next, TokenType::RightParen, closing@));
        proof {
            lemma_chain(
                old(self),
                &tested,
                self,
                second,
                required(tokens, second.next, TokenType::RightParen, closing@),
            );
        }
        close?;
        let ghost closed = *self;
        let body = self.statement();
        proof {
            lemma_chain(old(self), &closed, self, third, statement(tokens, third.next));
        }
        Ok((condition, body?))
    }

    /// An `if` statement.
    fn if_statement(&mut self) -> (r: Result<Stmt, ParseError>)
        requires
            old(self).wf(),
        ensures
            final(self).reached(old(self), if_statement(old(self).tokens(), old(self).at())),
            final(self).moved(old(self), r is Ok),
            gives(r, if_statement(old(self).tokens(), old(self).at()).value),
        decreases remaining(old(self).tokens(), old(self).at()), 16nat,
    {
        let ghost tokens = self.tokens();
        let ghost at = self.at();
        if self.current >= self.tokens.len() {
            return Err(self.reject("Expect '(' to open 'if' condition"));
        }
        self.current += 1;
        let head = self.guarded(
            "Expect '(' to open 'if' condition",
            "Expect ')' to close 'if' condition",
        );
        let ghost first = guarded(
            tokens,
            at + 1,
            "Expect '(' to open 'if' condition"@,
            "Expect ')' to close 'if' condition"@,
        );
        proof {
            assert(self.reached(old(self), first));
        }
        let (condition, then_branch) = head?;
        let ghost middle = *self;
        let other = self.clause(TokenType::Else);
        proof {
            lemma_chain(old(self), &middle, self, first, clause(tokens, first.next, TokenType::Else));
        }
        let else_branch = other?;
        Ok(Stmt::If { condition, then_branch: Box::new(then_branch), else_branch })
    }

    /// A `while` statement.
    fn while_statement(&mut self) -> (r: Result<Stmt, ParseError>)
        requires
            old(self).wf(),
        ensures
            final(self).reached(old(self), while_statement(old(self).tokens(), old(self).at())),
            final(self).moved(old(self), r is Ok),
            gives(r, while_statement(old(self).tokens(), old(self).at()).value),
        decreases remaining(old(self).tokens(), old(self).at()), 16nat,
    {
        let ghost tokens = self.tokens();
        let ghost at = self.at();
        if self.current >= self.tokens.len() {
            return Err(self.reject("Expect '(' to open 'while' condition"));
        }
        self.current += 1;
        let head = self.guarded(
            "Expect '(' to open 'while' condition",
            "Expect ')' to close 'while' condition",
        );
        let ghost first = guarded(
            tokens,
            at + 1,
            "Expect '(' to open 'while' condition"@,
            "Expect ')' to close 'while' condition"@,
        );
        proof {
            assert(self.reached(old(self), first));
        }
        let (condition, then_branch) = head?;
        let ghost middle = *self;
        let last = self.clause(TokenType::Finally);
        proof {
            lemma_chain(
                old(self),
                &middle,
                self,
                first,
                clause(tokens, first.next, TokenType::Finally),
            );
        }
        let finally_branch = last?;
        Ok(Stmt::While { condition, then_branch: Box::new(then_branch), finally_branch })
    }

    /// An expression, unless the next token is of kind `end`.
    fn optional(&mut self, end: TokenType) -> (r: Result<Option<Expr>, ParseError>)
        requires
            old(self).wf(),
        ensures
            final(self).reached(old(self), optional(old(self).tokens(), old(self).at(), end)),
            match r {
                Ok(Some(value)) => optional(old(self).tokens(), old(self).at(), end).value == Some(
                    Some(value@),
                ),
                Ok(None) => optional(old(self).tokens(), old(self).at(), end).value == Some(
                    None::<Expression>,
                ),
                Err(_) => optional(old(self).tokens(), old(self).at(), end).value is None,
            },
        decreases remaining(old(self).tokens(), old(self).at()), 12nat,
    {
        if self.check(end) {
            assert(self.faults() =~= self.faults() + Seq::<SyntaxFault>::empty());
            Ok(None)
        } else {
            Ok(Some(self.expression()?))
        }
    }

    /// The initializer of a `for` statement.
    fn for_initializer(&mut self) -> (r: Result<Option<Stmt>, ParseError>)
        requires
            old(self).wf(),
        ensures
            final(self).reached(old(self), for_initializer(old(self).tokens(), old(self).at())),
            match r {
                Ok(Some(declared)) => for_initializer(old(self).tokens(), old(self).at()).value
                    == Some(Some(declared@)),
                Ok(None) => for_initializer(old(self).tokens(), old(self).at()).value == Some(
                    None::<Statement>,
                ),
                Err(_) => for_initializer(old(self).tokens(), old(self).at()).value is None,
            },
        decreases remaining(old(self).tokens(), old(self).at()), 19nat,
    {
        if self.check(TokenType::SemiColon) {
            assert(self.faults() =~= self.faults() + Seq::<SyntaxFault>::empty());
            Ok(None)
        } else if self.check(TokenType::Var) {
            Ok(Some(self.var_declaration()?))
        } else {
            Ok(Some(self.expression_statement()?))
        }
    }

    /// The loop that a `for` statement stands for.
    fn desugar(
        initializer: Option<Stmt>,
        condition: Option<Expr>,
        increment: Option<Expr>,
        body: Stmt,
    ) -> (r: Stmt)
        ensures
            r@ == desugared(
                match initializer {
                    Some(first) => Some(first@),
                    None => None,
                },
                match condition {
                    Some(tested) => Some(tested@),
                    None => None,
                },
                match increment {
                    Some(step) => Some(step@),
                    None => None,
                },
                body@,
            ),
    {
        let stepped = match increment {
            Some(step) => {
                let mut both: Vec<Stmt> = Vec::new();
                both.push(body);
                both.push(Stmt::Expression { expression: step });
                assert(statements(both@) =~= seq![
                    body@,
                    Statement::Expression { expression: step@ },
                ]);
                Stmt::Block { statements: Box::new(both) }
            },
            None => body,
        };
        assert(stepped@ == match increment {
            Some(step) => Statement::Block {
                statements: seq![body@, Statement::Expression { expression: step@ }],
            },
            None => body@,
        });
        let looping = Stmt::While {
            condition: match condition {
                Some(tested) => tested,
                None => Expr::Literal { value: Literal::Bool(true) },
            },
            then_branch: Box::new(stepped),
            finally_branch: None,
        };
        assert(looping@ == Statement::While {
            condition: match condition {
                Some(tested) => tested@,
                None => Expression::Literal { value: Literal::Bool(true) },
            },
            then_branch: Box::new(stepped@),
            finally_branch: None,
        });
        match initializer {
            Some(first) => {
                let mut both: Vec<Stmt> = Vec::new();
                both.push(first);
                both.push(looping);
                assert(statements(both@) =~= seq![first@, looping@]);
                Stmt::Block { statements: Box::new(both) }
            },
            None => looping,
        }
    }

    /// A `for` statement, as the loop that it stands for.
    fn for_statement(&mut self) -> (r: Result<Stmt, ParseError>)
        requires
            old(self).wf(),
        ensures
            final(self).reached(old(self), for_statement(old(self).tokens(), old(self).at())),
            final(self).moved(old(self), r is Ok),
            gives(r, for_statement(old(self).tokens(), old(self).at()).value),
        decreases remaining(old(self).tokens(), old(self).at()), 16nat,
    {
        let ghost tokens = self.tokens();
        let ghost at = self.at();
        self.consume_token();
        let open = self.require_consume(TokenType::LeftParen, "Expect '(' to open 'for' clause");
        let ghost one = required(
            tokens,
            taken(tokens, at),
            TokenType::LeftParen,
            "Expect '(' to open 'for' clause"@,
        );
        proof {
            assert(self.reached(old(self), one));
        }
        open?;
        let ghost s1 = *self;
        let first = self.for_initializer();
        let ghost two = one.chain(for_initializer(tokens, one.next));
        proof {
            lemma_chain(old(self), &s1, self, one, for_initializer(tokens, one.next));
        }
        let initializer = first?;
        let ghost s2 = *self;
        let second = self.optional(TokenType::SemiColon);
        let ghost three = two.chain(optional(tokens, two.next, TokenType::SemiColon));
        proof {
            lemma_chain(old(self), &s2, self, two, optional(tokens, two.next, TokenType::SemiColon));
        }
        let condition = second?;
        let ghost s3 = *self;
        let end = self.require_consume(
            TokenType::SemiColon,
            "Expect ';' after 'for' loop condition",
        );
        let ghost four = three.chain(
            required(
                tokens,
                three.next,
                TokenType::SemiColon,
                "Expect ';' after 'for' loop condition"@,
            ),
        );
        proof {
            lemma_chain(
                old(self),
                &s3,
                self,
                three,
                required(
                    tokens,
                    three.next,
                    TokenType::SemiColon,
                    "Expect ';' after 'for' loop condition"@,
                ),
            );
        }
        end?;
        let ghost s4 = *self;
        let third = self.optional(TokenType::RightParen);
        let ghost five = four.chain(optional(tokens, four.next, TokenType::RightParen));
        proof {
            lemma_chain(
                old(self),
                &s4,
                self,
                four,
                optional(tokens, four.next, TokenType::RightParen),
            );
        }
        let increment = third?;
        let ghost s5 = *self;
        let close = self.require_consume(TokenType::RightParen, "Expect ')' to close 'for' clause");
        let ghost six = five.chain(
            required(tokens, five.next, TokenType::RightParen, "Expect ')' to close 'for' clause"@),
        );
        proof {
            lemma_chain(
                old(self),
                &s5,
                self,
                five,
                required(
                    tokens,
                    five.next,
                    TokenType::RightParen,
                    "Expect ')' to close 'for' clause"@,
                ),
            );
        }
        close?;
        let ghost s6 = *self;
        let body = self.statement();
        proof {
            lemma_chain(old(self), &s6, self, six, statement(tokens, six.next));
        }
        let body = body?;
        Ok(Self::desugar(initializer, condition, increment, body))
    }

    /// A `print` statement.
    fn print_statement(&mut self) -> (r: Result<Stmt, ParseError>)
        requires
            old(self).wf(),
        ensures
            final(self).reached(old(self), print_statement(old(self).tokens(), old(self).at())),
            final(self).moved(old(self), r is Ok),
            gives(r, print_statement(old(self).tokens(), old(self).at()).value),
        decreases remaining(old(self).tokens(), old(self).at()), 16nat,
    {
        let ghost tokens = self.tokens();
        let ghost at = self.at();
        self.consume_token();
        let value = self.expression();
        let ghost first = expression(tokens, taken(tokens, at));
        proof {
            assert(self.reached(old(self), first));
        }
        let value = value?;
        let ghost middle = *self;
        let end = self.require_consume(TokenType::SemiColon, "Expect ';' after value");
        proof {
            lemma_chain(
                old(self),
                &middle,
                self,
                first,
                required(tokens, first.next, TokenType::SemiColon, "Expect ';' after value"@),
            );
        }
        end?;
        Ok(Stmt::Print { expression: value })
    }

    /// A `break` statement.
    fn break_statement(&mut self) -> (r: Result<Stmt, ParseError>)
        requires
            old(self).wf(),
        ensures
            final(self).reached(old(self), break_statement(old(self).tokens(), old(self).at())),
            final(self).moved(old(self), r is Ok),
            gives(r, break_statement(old(self).tokens(), old(self).at()).value),
    {
        let ghost tokens = self.tokens();
        let ghost at = self.at();
        let token = self.require_consume(TokenType::Break, "Expect 'break'")?;
        let ghost first = required(tokens, at, TokenType::Break, "Expect 'break'"@);
        let ghost middle = *self;
        let end = self.require_consume(TokenType::SemiColon, "Expect ';' after break");
        proof {
            lemma_chain(
                old(self),
                &middle,
                self,
                first,
                required(tokens, first.next, TokenType::SemiColon, "Expect ';' after break"@),
            );
        }
        end?;
        Ok(Stmt::Break { token })
    }

    /// A `return` statement.
    fn return_statement(&mut self) -> (r: Result<Stmt, ParseError>)
        requires
            old(self).wf(),
        ensures
            final(self).reached(old(self), return_statement(old(self).tokens(), old(self).at())),
            final(self).moved(old(self), r is Ok),
            gives(r, return_statement(old(self).tokens(), old(self).at()).value),
        decreases remaining(old(self).tokens(), old(self).at()), 16nat,
    {
        let ghost tokens = self.tokens();
        let ghost at = self.at();
        let token = self.require_consume(TokenType::Return, "Expect 'return'")?;
        let ghost first = required(tokens, at, TokenType::Return, "Expect 'return'"@);
        let ghost s1 = *self;
        let value = self.optional(TokenType::SemiColon);
        let ghost second = first.chain(optional(tokens, first.next, TokenType::SemiColon));
        proof {
            lemma_chain(
                old(self),
                &s1,
                self,
                first,
                optional(tokens, first.next, TokenType::SemiColon),
            );
        }
        let return_value = value?;
        let ghost s2 = *self;
        let end = self.require_consume(TokenType::SemiColon, "Expect ';' after return statement");
        proof {
            lemma_chain(
                old(self),
                &s2,
                self,
                second,
                required(
                    tokens,
                    second.next,
                    TokenType::SemiColon,
                    "Expect ';' after return statement"@,
                ),
            );
        }
        end?;
        Ok(Stmt::Return { token, return_value })
    }

    /// An expression and `;`.
    fn expression_statement(&mut self) -> (r: Result<Stmt, ParseError>)
        requires
            old(self).wf(),
        ensures
            final(self).reached(old(self), expression_statement(old(self).tokens(), old(self).at())),
            final(self).moved(old(self), r is Ok),
            gives(r, expression_statement(old(self).tokens(), old(self).at()).value),
        decreases remaining(old(self).tokens(), old(self).at()), 16nat,
    {
        let ghost tokens = self.tokens();
        let ghost at = self.at();
        let value = self.expression()?;
        let ghost first = expression(tokens, at);
        let ghost middle = *self;
        let end = self.require_consume(TokenType::SemiColon, "Expect ';' after expression");
        proof {
            lemma_chain(
                old(self),
                &middle,
                self,
                first,
                required(tokens, first.next, TokenType::SemiColon, "Expect ';' after expression"@),
            );
        }
        end?;
        Ok(Stmt::Expression { expression: value })
    }

    /// A block: `{`, declarations, and `}`.
    fn block(&mut self) -> (r: Result<Vec<Stmt>, ParseError>)
        requires
            old(self).wf(),
        ensures
            final(self).reached(old(self), block(old(self).tokens(), old(self).at())),
            final(self).moved(old(self), r is Ok),
            match r {
                Ok(list) => block(old(self).tokens(), old(self).at()).value == Some(
                    statements(list@),
                ),
                Err(_) => block(old(self).tokens(), old(self).at()).value is None,
            },
        decreases remaining(old(self).tokens(), old(self).at()), 15nat,
    {
        let ghost tokens = self.tokens();
        let ghost at = self.at();
        self.require_consume(TokenType::LeftBrace, "Expect '{' to open a block")?;
        let ghost first = required(tokens, at, TokenType::LeftBrace, "Expect '{' to open a block"@);
        let ghost opened = *self;
        let r = self.block_rest(Vec::new());
        proof {
            assert(statements(Seq::<Stmt>::empty()) =~= Seq::<Statement>::empty());
            lemma_chain(old(self), &opened, self, first, block_rest(tokens, first.next, Seq::empty()));
        }
        r
    }

    /// The declarations of a block, up to `}`.
    fn block_rest(&mut self, so_far: Vec<Stmt>) -> (r: Result<Vec<Stmt>, ParseError>)
        requires
            old(self).wf(),
        ensures
            final(self).reached(
                old(self),
                block_rest(old(self).tokens(), old(self).at(), statements(so_far@)),
            ),
            match r {
                Ok(list) => block_rest(
                    old(self).tokens(),
                    old(self).at(),
                    statements(so_far@),
                ).value == Some(statements(list@)),
                Err(_) => block_rest(
                    old(self).tokens(),
                    old(self).at(),
                    statements(so_far@),
                ).value is None,
            },
        decreases remaining(old(self).tokens(), old(self).at()), 21nat,
    {
        let ghost tokens = self.tokens();
        let ghost at = self.at();
        if self.check(TokenType::RightBrace) || self.is_done() {
            self.require_consume(TokenType::RightBrace, "Expect '}' to close a block")?;
            return Ok(so_far);
        }
        let declared = self.declaration();
        let ghost first = declaration(tokens, at);
        let declared = declared?;
        let ghost middle = *self;
        let mut list = so_far;
        list.push(declared);
        proof {
            assert(statements(list@) =~= statements(so_far@).push(declared@));
        }
        let r = self.block_rest(list);
        proof {
            lemma_chain(
                old(self),
                &middle,
                self,
                first,
                block_rest(tokens, first.next, statements(list@)),
            );
        }
        r
    }

    /// Whether a statement may begin with a token of kind `kind`.
    fn begins(kind: TokenType) -> (r: bool)
        ensures
            r == begins_statement(kind),
    {
        match kind {
            TokenType::Class | TokenType::Funct | TokenType::Var | TokenType::For | TokenType::If
            | TokenType::While | TokenType::Print | TokenType::Return => true,
            _ => false,
        }
    }

    /// Skips the tokens of a statement that a syntax error ended: up to the
    /// first place that lies behind a `;`, or a token that begins a
    /// statement, or the end.
    fn synchronize(&mut self)
        requires
            old(self).wf(),
        ensures
            final(self).reached(
                old(self),
                Parsed::<()> {
                    value: None,
                    next: synchronized(old(self).tokens(), old(self).at()),
                    faults: Seq::empty(),
                },
            ),
    {
        proof {
            assert(self.faults() =~= self.faults() + Seq::<SyntaxFault>::empty());
        }
        while !self.is_done() && !(self.current >= 1 && self.tokens[self.current - 1].token_type
            == TokenType::SemiColon) && !Self::begins(self.tokens[self.current].token_type)
            invariant
                self.wf(),
                self.tokens() == old(self).tokens(),
                self.faults() == old(self).faults(),
                old(self).at() <= self.at(),
                synchronized(old(self).tokens(), old(self).at()) == synchronized(
                    self.tokens(),
                    self.at(),
                ),
            decreases self.tokens().len() - self.at(),
        {
            self.current += 1;
        }
    }

    /// Parses the program: the declarations from the next token on, up to the
    /// end. A syntax error is reported and ends the declaration that it lies
    /// in; parsing goes on behind it, so that one call finds them all.
    pub fn parse(&mut self) -> (r: Vec<Stmt>)
        requires
            old(self).wf(),
        ensures
            final(self).reached(
                old(self),
                program(old(self).tokens(), old(self).at(), Seq::empty()),
            ),
            program(old(self).tokens(), old(self).at(), Seq::empty()).value == Some(
                statements(r@),
            ),
    {
        let ghost tokens = self.tokens();
        let ghost total = program(tokens, self.at(), Seq::empty());
        let mut list: Vec<Stmt> = Vec::new();
        proof {
            assert(statements(list@) =~= Seq::<Statement>::empty());
        }
        while !self.is_done()
            invariant
                self.wf(),
                self.tokens() == tokens,
                tokens == old(self).tokens(),
                old(self).at() <= self.at(),
                total == program(tokens, old(self).at(), Seq::empty()),
                total.value == program(tokens, self.at(), statements(list@)).value,
                total.next == program(tokens, self.at(), statements(list@)).next,
                old(self).faults() + total.faults == self.faults() + program(
                    tokens,
                    self.at(),
                    statements(list@),
                ).faults,
            decreases tokens.len() - self.at(),
        {
            let ghost before = *self;
            let ghost so_far = statements(list@);
            let ghost first = declaration(tokens, before.at());
            match self.declaration() {
                Ok(declared) => {
                    list.push(declared);
                    proof {
                        assert(statements(list@) =~= so_far.push(declared@));
                        let rest = program(tokens, first.next, statements(list@));
                        assert((before.faults() + first.faults) + rest.faults =~= before.faults() + (
                        first.faults + rest.faults));
                    }
                },
                Err(_) => {
                    self.synchronize();
                    proof {
                        let rest = program(tokens, synchronized(tokens, first.next), so_far);
                        assert((before.faults() + first.faults) + rest.faults =~= before.faults() + (
                        first.faults + rest.faults));
                    }
                },
            }
        }
        proof {
            assert(self.faults() + Seq::<SyntaxFault>::empty() =~= self.faults());
            assert(old(self).faults() + total.faults =~= self.faults());
        }
        list
    }
}

} // verus!
