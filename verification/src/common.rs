//! What the stages share: tokens, runtime values, classes, instances and
//! functions.

use vstd::prelude::*;
use vstd::string::*;
use crate::interpreter::RuntimeException;
use crate::names::NameMap;
use crate::stmt::Stmt;
use crate::number::{compare_numbers, number_order, numbers_equal, same_number, Order};
use crate::text::{chars_of, same_text};

verus! {

/// The largest number of parameters a function may declare, and of arguments
/// a call may pass, before the parser reports a syntax error.
pub const LOX_MAX_ARGUMENT_COUNT: usize = 255;

/// The kind of a token.
#[derive(Debug, PartialEq, Eq, Copy, Clone, Hash, Structural)]
pub enum TokenType {
    // punctuation
    LeftParen,
    RightParen,
    LeftBrace,
    RightBrace,
    Comma,
    Dot,
    SemiColon,
    // operators
    Minus,
    Plus,
    Slash,
    Star,
    Bang,
    BangEqual,
    Equal,
    EqualEqual,
    Greater,
    GreaterEqual,
    Less,
    LessEqual,
    // literals
    Identifier,
    Strang,
    Number,
    // keywords
    And,
    Break,
    Class,
    Else,
    False,
    Funct,
    Finally,
    For,
    If,
    Meth,
    Nil,
    Or,
    Print,
    Return,
    Super,
    This,
    True,
    Var,
    While,
    EOF,
}

/// Whether `c` is one of the punctuation characters that end a numeric literal.
pub open spec fn punctuation(c: char) -> bool {
    c == '(' || c == ')' || c == '{' || c == '}' || c == '[' || c == ']' || c == ';' || c == ','
        || c == '\'' || c == '"' || c == '.'
}

/// Whether `c` is a punctuation character.
pub fn is_punctuation(c: &char) -> (r: bool)
    ensures
        r == punctuation(*c),
{
    let c: char = *c;
    c == '(' || c == ')' || c == '{' || c == '}' || c == '[' || c == ']' || c == ';' || c == ','
        || c == '\'' || c == '"' || c == '.'
}


/// The token kind that the word `text` is reserved for, if it is a keyword.
pub open spec fn keyword_kind(text: Seq<char>) -> Option<TokenType> {
    if text == "and"@ {
        Some(TokenType::And)
    } else if text == "break"@ {
        Some(TokenType::Break)
    } else if text == "class"@ {
        Some(TokenType::Class)
    } else if text == "else"@ {
        Some(TokenType::Else)
    } else if text == "false"@ {
        Some(TokenType::False)
    } else if text == "funct"@ {
        Some(TokenType::Funct)
    } else if text == "for"@ {
        Some(TokenType::For)
    } else if text == "finally"@ {
        Some(TokenType::Finally)
    } else if text == "if"@ {
        Some(TokenType::If)
    } else if text == "meth"@ {
        Some(TokenType::Meth)
    } else if text == "nil"@ {
        Some(TokenType::Nil)
    } else if text == "or"@ {
        Some(TokenType::Or)
    } else if text == "print"@ {
        Some(TokenType::Print)
    } else if text == "return"@ {
        Some(TokenType::Return)
    } else if text == "super"@ {
        Some(TokenType::Super)
    } else if text == "this"@ {
        Some(TokenType::This)
    } else if text == "true"@ {
        Some(TokenType::True)
    } else if text == "var"@ {
        Some(TokenType::Var)
    } else if text == "while"@ {
        Some(TokenType::While)
    } else {
        None
    }
}

/// Looks a word up among the keywords.
pub fn keyword(word: &Vec<char>) -> (r: Option<TokenType>)
    ensures
        r == keyword_kind(word@),
{
    if same_text(word, "and") {
        Some(TokenType::And)
    } else if same_text(word, "break") {
        Some(TokenType::Break)
    } else if same_text(word, "class") {
        Some(TokenType::Class)
    } else if same_text(word, "else") {
        Some(TokenType::Else)
    } else if same_text(word, "false") {
        Some(TokenType::False)
    } else if same_text(word, "funct") {
        Some(TokenType::Funct)
    } else if same_text(word, "for") {
        Some(TokenType::For)
    } else if same_text(word, "finally") {
        Some(TokenType::Finally)
    } else if same_text(word, "if") {
        Some(TokenType::If)
    } else if same_text(word, "meth") {
        Some(TokenType::Meth)
    } else if same_text(word, "nil") {
        Some(TokenType::Nil)
    } else if same_text(word, "or") {
        Some(TokenType::Or)
    } else if same_text(word, "print") {
        Some(TokenType::Print)
    } else if same_text(word, "return") {
        Some(TokenType::Return)
    } else if same_text(word, "super") {
        Some(TokenType::Super)
    } else if same_text(word, "this") {
        Some(TokenType::This)
    } else if same_text(word, "true") {
        Some(TokenType::True)
    } else if same_text(word, "var") {
        Some(TokenType::Var)
    } else if same_text(word, "while") {
        Some(TokenType::While)
    } else {
        None
    }
}

/// What a token is, apart from the string that holds its text: the model that
/// contracts on freshly made tokens are stated over.
pub struct Lexeme {
    pub token_type: TokenType,
    pub raw: Seq<char>,
    pub line: u32,
    pub column: u32,
}

/// A token: its kind, its text, and the position in the source just behind it.
#[derive(Debug, PartialEq, Eq, Hash)]
pub struct Token {
    pub token_type: TokenType,
    pub raw: String,
    pub line: u32,
    pub column: u32,
}

impl View for Token {
    type V = Lexeme;

    open spec fn view(&self) -> Lexeme {
        Lexeme { token_type: self.token_type, raw: self.raw@, line: self.line, column: self.column }
    }
}

impl Clone for Token {
    fn clone(&self) -> (r: Self)
        ensures
            r == *self,
    {
        Token {
            token_type: self.token_type,
            raw: self.raw.clone(),
            line: self.line,
            column: self.column,
        }
    }
}

impl Token {
    /// A token of kind `token_type` with the text `raw`, behind which the source
    /// stands at `line` and `column`.
    pub fn new(token_type: TokenType, raw: &str, line: u32, column: u32) -> (r: Self)
        ensures
            r@ == (Lexeme { token_type, raw: raw@, line, column }),
    {
        Token { token_type, raw: String::from_str(raw), line, column }
    }

    /// The number that stands for the token's position: no two positions share one.
    pub open spec fn key(&self) -> u64 {
        (self.line as u64 * 0x1_0000_0000 + self.column as u64) as u64
    }

    /// The number that stands for the token's position.
    pub fn position(&self) -> (r: u64)
        ensures
            r == self.key(),
    {
        self.line as u64 * 0x1_0000_0000 + self.column as u64
    }
}

/// The token that stands for the end of input where there is none to point at.
pub open spec fn end_marker() -> Lexeme {
    Lexeme { token_type: TokenType::EOF, raw: Seq::empty(), line: 0, column: 0 }
}

/// A class: nothing but its name.
#[derive(Debug, PartialEq)]
pub struct LoxClass {
    name: String,
}

impl Clone for LoxClass {
    fn clone(&self) -> (r: Self)
        ensures
            r == *self,
    {
        LoxClass { name: self.name.clone() }
    }
}

impl LoxClass {
    /// The class's name.
    pub closed spec fn name(&self) -> Seq<char> {
        self.name@
    }

    /// The class named `name`.
    pub fn new(name: String) -> (r: Self)
        ensures
            r.name() == name@,
    {
        Self { name }
    }

    /// The class's name.
    pub fn to_string(&self) -> (r: String)
        ensures
            r@ == self.name(),
    {
        self.name.clone()
    }

    /// Whether two classes bear the same name.
    pub fn same(&self, other: &LoxClass) -> (r: bool)
        ensures
            r == (self.name() == other.name()),
    {
        self.name == other.name
    }
}

/// What can be called besides a class: the built-in clock, or a function that
/// the program declared, known by its index among the interpreter's functions.
#[derive(Debug, PartialEq, Eq, Copy, Clone, Structural)]
pub enum Callable {
    Clock,
    Declared(usize),
}

/// What a runtime value is, with the text of a string in place of the string.
pub enum Value {
    Number(u32),
    Text(Seq<char>),
    Bool(bool),
    Nil,
    Function(Callable),
    Class(Seq<char>),
    Instance(usize),
}

/// A runtime value. A number is held as the bit pattern of a 32-bit float, an
/// instance as its index among the interpreter's instances: two values that
/// hold the same index share the instance.
#[derive(Debug)]
pub enum LoxType {
    Number(u32),
    Strang(String),
    Bool(bool),
    Nil,
    Function(Callable),
    Class(LoxClass),
    Instance(usize),
}

impl View for LoxType {
    type V = Value;

    open spec fn view(&self) -> Value {
        match self {
            LoxType::Number(bits) => Value::Number(*bits),
            LoxType::Strang(text) => Value::Text(text@),
            LoxType::Bool(b) => Value::Bool(*b),
            LoxType::Nil => Value::Nil,
            LoxType::Function(f) => Value::Function(*f),
            LoxType::Class(c) => Value::Class(c.name()),
            LoxType::Instance(i) => Value::Instance(*i),
        }
    }
}

impl Clone for LoxType {
    fn clone(&self) -> (r: Self)
        ensures
            r == *self,
    {
        match self {
            LoxType::Number(bits) => LoxType::Number(*bits),
            LoxType::Strang(text) => LoxType::Strang(text.clone()),
            LoxType::Bool(b) => LoxType::Bool(*b),
            LoxType::Nil => LoxType::Nil,
            LoxType::Function(f) => LoxType::Function(*f),
            LoxType::Class(c) => LoxType::Class(c.clone()),
            LoxType::Instance(i) => LoxType::Instance(*i),
        }
    }
}

/// What it takes to decide whether two values are equal.
pub enum Equality {
    /// The values themselves decide.
    Decided(bool),
    /// A number stands against a string: they are equal if the string, read as
    /// a number, is that number.
    Reading { number: u32, text: Seq<char> },
    /// Two instances stand against each other: they are equal if their classes
    /// and their fields are.
    Instances { left: usize, right: usize },
}

impl Value {
    /// `nil` and `false` are falsy, every other value is truthy.
    pub open spec fn truthy(self) -> bool {
        match self {
            Value::Nil => false,
            Value::Bool(b) => b,
            _ => true,
        }
    }

    /// The place of a value's kind in the order of kinds.
    pub open spec fn kind(self) -> int {
        match self {
            Value::Number(_) => 0,
            Value::Text(_) => 1,
            Value::Bool(_) => 2,
            Value::Nil => 3,
            Value::Function(_) => 4,
            Value::Class(_) => 5,
            Value::Instance(_) => 6,
        }
    }

    /// Equality of values, as far as the two values decide it.
    ///
    /// Numbers are equal as numbers; strings by their text; booleans by their
    /// value; `false` and `nil` are equal to each other, but `nil` is not equal
    /// to `nil`; functions and classes are equal to nothing. A number against a
    /// string, and an instance against an instance, need more than the two
    /// values: the result says what.
    pub open spec fn equality(self, other: Value) -> Equality {
        match (self, other) {
            (Value::Number(a), Value::Number(b)) => Equality::Decided(same_number(a, b)),
            (Value::Number(a), Value::Text(s)) => Equality::Reading { number: a, text: s },
            (Value::Text(s), Value::Number(a)) => Equality::Reading { number: a, text: s },
            (Value::Text(s), Value::Text(t)) => Equality::Decided(s == t),
            (Value::Bool(a), Value::Bool(b)) => Equality::Decided(a == b),
            (Value::Bool(a), Value::Nil) => Equality::Decided(!a),
            (Value::Nil, Value::Bool(b)) => Equality::Decided(!b),
            (Value::Instance(a), Value::Instance(b)) => Equality::Instances { left: a, right: b },
            _ => Equality::Decided(false),
        }
    }

    /// How two values are ordered, if they are.
    ///
    /// Values of different kinds are ordered as their kinds are: numbers come
    /// first, then strings, booleans, `nil`, functions, classes and instances.
    /// Numbers are ordered as numbers, strings and classes by their text and
    /// name, character by character, `false` before `true`; `nil` is equal to
    /// `nil`; two functions, and two instances, are not ordered.
    pub open spec fn order(self, other: Value) -> Option<Order> {
        if self.kind() < other.kind() {
            Some(Order::Less)
        } else if self.kind() > other.kind() {
            Some(Order::Greater)
        } else {
            match (self, other) {
                (Value::Number(a), Value::Number(b)) => number_order(a, b),
                (Value::Text(s), Value::Text(t)) => Some(text_order(s, t)),
                (Value::Bool(a), Value::Bool(b)) => Some(
                    if a == b {
                        Order::Equal
                    } else if b {
                        Order::Less
                    } else {
                        Order::Greater
                    },
                ),
                (Value::Nil, Value::Nil) => Some(Order::Equal),
                (Value::Class(s), Value::Class(t)) => Some(text_order(s, t)),
                _ => None,
            }
        }
    }
}

/// What a comparison made with `<`, `<=`, `>` or `>=` holds of.
pub open spec fn satisfies(operator: TokenType, order: Option<Order>) -> bool {
    match operator {
        TokenType::Greater => order == Some(Order::Greater),
        TokenType::GreaterEqual => order == Some(Order::Greater) || order == Some(Order::Equal),
        TokenType::Less => order == Some(Order::Less),
        TokenType::LessEqual => order == Some(Order::Less) || order == Some(Order::Equal),
        _ => false,
    }
}

/// Whether the comparison `operator` holds of two values that are ordered as
/// `order` says.
pub fn holds(operator: TokenType, order: Option<Order>) -> (r: bool)
    ensures
        r == satisfies(operator, order),
{
    match operator {
        TokenType::Greater => matches!(order, Some(Order::Greater)),
        TokenType::GreaterEqual => matches!(order, Some(Order::Greater) | Some(Order::Equal)),
        TokenType::Less => matches!(order, Some(Order::Less)),
        TokenType::LessEqual => matches!(order, Some(Order::Less) | Some(Order::Equal)),
        _ => false,
    }
}

/// The order of two texts: that of their characters at the first place where
/// they differ; where neither differs from the other as far as both go, the
/// shorter comes first.
pub open spec fn text_order(s: Seq<char>, t: Seq<char>) -> Order
    decreases s.len(),
{
    if s.len() == 0 && t.len() == 0 {
        Order::Equal
    } else if s.len() == 0 {
        Order::Less
    } else if t.len() == 0 {
        Order::Greater
    } else if s[0] < t[0] {
        Order::Less
    } else if s[0] > t[0] {
        Order::Greater
    } else {
        text_order(s.drop_first(), t.drop_first())
    }
}

/// Orders two strings.
pub fn order_text(s: &str, t: &str) -> (r: Order)
    ensures
        r == text_order(s@, t@),
{
    let a = chars_of(s);
    let b = chars_of(t);
    let mut i: usize = 0;
    assert(a@.skip(0) =~= a@ && b@.skip(0) =~= b@);
    while i < a.len() && i < b.len()
        invariant
            a@ == s@,
            b@ == t@,
            i <= a@.len(),
            i <= b@.len(),
            text_order(a@, b@) == text_order(a@.skip(i as int), b@.skip(i as int)),
        decreases a@.len() - i,
    {
        let ghost x = a@.skip(i as int);
        let ghost y = b@.skip(i as int);
        assert(x.len() > 0 && y.len() > 0);
        assert(x[0] == a@[i as int] && y[0] == b@[i as int]);
        assert(x.drop_first() =~= a@.skip(i + 1));
        assert(y.drop_first() =~= b@.skip(i + 1));
        if a[i] < b[i] {
            return Order::Less;
        }
        if a[i] > b[i] {
            return Order::Greater;
        }
        i += 1;
    }
    assert(a@.skip(i as int).len() == a@.len() - i);
    assert(b@.skip(i as int).len() == b@.len() - i);
    if i < b.len() {
        Order::Less
    } else if i < a.len() {
        Order::Greater
    } else {
        Order::Equal
    }
}

impl LoxType {
    /// Whether the value counts as true where a condition is wanted.
    pub fn is_truthy(&self) -> (r: bool)
        ensures
            r == self@.truthy(),
    {
        match self {
            LoxType::Nil => false,
            LoxType::Bool(b) => *b,
            _ => true,
        }
    }

    /// The place of the value's kind in the order of kinds.
    fn kind_of(&self) -> (r: u8)
        ensures
            r == self@.kind(),
    {
        match self {
            LoxType::Number(_) => 0,
            LoxType::Strang(_) => 1,
            LoxType::Bool(_) => 2,
            LoxType::Nil => 3,
            LoxType::Function(_) => 4,
            LoxType::Class(_) => 5,
            LoxType::Instance(_) => 6,
        }
    }

    /// What it takes to decide whether `self` equals `other`.
    pub fn eq(&self, other: &LoxType) -> (r: EqualityQuestion)
        ensures
            r@ == self@.equality(other@),
    {
        match (self, other) {
            (LoxType::Number(a), LoxType::Number(b)) => EqualityQuestion::Decided(
                numbers_equal(*a, *b),
            ),
            (LoxType::Number(a), LoxType::Strang(s)) => EqualityQuestion::Reading {
                number: *a,
                text: s.clone(),
            },
            (LoxType::Strang(s), LoxType::Number(a)) => EqualityQuestion::Reading {
                number: *a,
                text: s.clone(),
            },
            (LoxType::Strang(s), LoxType::Strang(t)) => EqualityQuestion::Decided(*s == *t),
            (LoxType::Bool(a), LoxType::Bool(b)) => EqualityQuestion::Decided(*a == *b),
            (LoxType::Bool(a), LoxType::Nil) => EqualityQuestion::Decided(!*a),
            (LoxType::Nil, LoxType::Bool(b)) => EqualityQuestion::Decided(!*b),
            (LoxType::Instance(a), LoxType::Instance(b)) => EqualityQuestion::Instances {
                left: *a,
                right: *b,
            },
            _ => EqualityQuestion::Decided(false),
        }
    }

    /// How `self` and `other` are ordered, if they are.
    pub fn partial_compare(&self, other: &LoxType) -> (r: Option<Order>)
        ensures
            r == self@.order(other@),
    {
        let a: u8 = self.kind_of();
        let b: u8 = other.kind_of();
        if a < b {
            Some(Order::Less)
        } else if a > b {
            Some(Order::Greater)
        } else {
            match (self, other) {
                (LoxType::Number(x), LoxType::Number(y)) => compare_numbers(*x, *y),
                (LoxType::Strang(s), LoxType::Strang(t)) => Some(order_text(s.as_str(), t.as_str())),
                (LoxType::Bool(x), LoxType::Bool(y)) => Some(
                    if *x == *y {
                        Order::Equal
                    } else if *y {
                        Order::Less
                    } else {
                        Order::Greater
                    },
                ),
                (LoxType::Nil, LoxType::Nil) => Some(Order::Equal),
                (LoxType::Class(c), LoxType::Class(d)) => Some(
                    order_text(c.name.as_str(), d.name.as_str()),
                ),
                _ => None,
            }
        }
    }
}

/// The answer of `LoxType::eq`: `Equality`, with the string in place of its text.
#[derive(Debug)]
pub enum EqualityQuestion {
    Decided(bool),
    Reading { number: u32, text: String },
    Instances { left: usize, right: usize },
}

impl View for EqualityQuestion {
    type V = Equality;

    open spec fn view(&self) -> Equality {
        match self {
            EqualityQuestion::Decided(b) => Equality::Decided(*b),
            EqualityQuestion::Reading { number, text } => Equality::Reading {
                number: *number,
                text: text@,
            },
            EqualityQuestion::Instances { left, right } => Equality::Instances {
                left: *left,
                right: *right,
            },
        }
    }
}

/// Whether a number equals a string, given what reading the string as a number
/// gave: they are equal if it gave a number, and that number is the same.
pub open spec fn equal_to_reading(number: u32, reading: Option<u32>) -> bool {
    match reading {
        Some(read) => same_number(number, read),
        None => false,
    }
}

/// Whether a number equals a string that was read as `reading` says.
pub fn number_equals_reading(number: u32, reading: Option<u32>) -> (r: bool)
    ensures
        r == equal_to_reading(number, reading),
{
    match reading {
        Some(read) => numbers_equal(number, read),
        None => false,
    }
}

/// What can be called says how many arguments it takes.
pub trait LoxCallable {
    /// The number of arguments that a call must pass.
    spec fn parameters(&self) -> nat;

    fn arity(&self) -> (n: usize)
        ensures
            n == self.parameters(),
    ;
}

/// A function that the program declared: its name, its parameters, its body,
/// and the scope in which it was declared, in which its body runs.
#[derive(Debug, Clone, Copy)]
pub struct LoxFunction<'a> {
    pub name: &'a Token,
    pub parameters: &'a Vec<Token>,
    pub body: &'a Vec<Stmt>,
    pub closure: usize,
}

impl<'a> LoxFunction<'a> {
    /// A function declared as `name` with `parameters` and `body` in the scope
    /// `closure`.
    pub fn new(
        name: &'a Token,
        parameters: &'a Vec<Token>,
        body: &'a Vec<Stmt>,
        closure: usize,
    ) -> (r: Self)
        ensures
            r == (LoxFunction { name, parameters, body, closure }),
    {
        Self { name, parameters, body, closure }
    }
}

impl<'a> LoxCallable for LoxFunction<'a> {
    open spec fn parameters(&self) -> nat {
        self.parameters@.len()
    }

    fn arity(&self) -> (n: usize) {
        self.parameters.len()
    }
}

impl LoxCallable for LoxClass {
    open spec fn parameters(&self) -> nat {
        0
    }

    fn arity(&self) -> (n: usize) {
        0
    }
}

/// What an instance is: the name of its class, and its fields in the order in
/// which they were first set.
pub struct Object {
    pub class: Seq<char>,
    pub names: Seq<Seq<char>>,
    pub values: Seq<Value>,
}

impl Object {
    /// Whether the instance has a field `name`.
    pub open spec fn has(self, name: Seq<char>) -> bool {
        self.names.contains(name)
    }

    /// The value of the field `name`.
    pub open spec fn field(self, name: Seq<char>) -> Value {
        self.values[self.names.index_of(name)]
    }

    /// The instance after its field `name` was set to `value`: a known field
    /// keeps its place, a new one comes last.
    pub open spec fn with(self, name: Seq<char>, value: Value) -> Object {
        if self.has(name) {
            Object { values: self.values.update(self.names.index_of(name), value), ..self }
        } else {
            Object { names: self.names.push(name), values: self.values.push(value), ..self }
        }
    }
}

/// The error of reading a field that an instance does not have.
pub open spec fn missing_property(name: Seq<char>, class: Seq<char>) -> Seq<char> {
    "Property "@ + name + " does not exist on "@ + class + " instance"@
}

/// An instance of a class, with the fields that were set on it.
#[derive(Debug)]
pub struct LoxInstance {
    class_: LoxClass,
    fields: NameMap<LoxType>,
}

impl View for LoxInstance {
    type V = Object;

    closed spec fn view(&self) -> Object {
        Object {
            class: self.class_.name(),
            names: self.fields.keys(),
            values: self.fields.entries().map_values(|v: LoxType| v@),
        }
    }
}

impl LoxInstance {
    /// The instance's fields are well formed.
    pub closed spec fn wf(&self) -> bool {
        self.fields.wf()
    }

    /// A well-formed instance has a value for each field name, and no name twice.
    pub proof fn lemma_wf(&self)
        requires
            self.wf(),
        ensures
            self@.names.len() == self@.values.len(),
            self@.names.no_duplicates(),
    {
        self.fields.lemma_shape();
    }

    /// A new instance of `class_`, without fields.
    pub fn new(class_: LoxClass) -> (r: Self)
        ensures
            r.wf(),
            r@ == (Object { class: class_.name(), names: Seq::empty(), values: Seq::empty() }),
    {
        let r = Self { class_, fields: NameMap::new() };
        assert(r@.values =~= Seq::<Value>::empty());
        r
    }

    /// The number of fields.
    pub fn len(&self) -> (n: usize)
        requires
            self.wf(),
        ensures
            n == self@.names.len(),
            n == self@.values.len(),
    {
        proof {
            self.fields.lemma_shape();
        }
        self.fields.len()
    }

    /// The value of the `i`-th field.
    pub fn value_at(&self, i: usize) -> (r: LoxType)
        requires
            self.wf(),
            i < self@.values.len(),
        ensures
            r@ == self@.values[i as int],
    {
        self.fields.value_at(i).clone()
    }

    /// The name of the `i`-th field.
    pub fn name_at(&self, i: usize) -> (r: &String)
        requires
            self.wf(),
            i < self@.names.len(),
        ensures
            r@ == self@.names[i as int],
    {
        self.fields.key_at(i)
    }

    /// The value of the field `name`, if the instance has it.
    pub fn field(&self, name: &String) -> (r: Option<LoxType>)
        requires
            self.wf(),
        ensures
            match r {
                Some(value) => self@.has(name@) && value@ == self@.field(name@),
                None => !self@.has(name@),
            },
    {
        proof {
            self.fields.lemma_shape();
        }
        match self.fields.find(name) {
            Some(i) => Some(self.fields.value_at(i).clone()),
            None => None,
        }
    }

    /// The value of the field that `name` names, or the error that the
    /// instance has no such field.
    pub fn get(&self, name: &Token) -> (r: Result<LoxType, RuntimeException>)
        requires
            self.wf(),
        ensures
            match r {
                Ok(value) => self@.has(name.raw@) && value@ == self@.field(name.raw@),
                Err(e) => !self@.has(name.raw@) && e.is(
                    *name,
                    missing_property(name.raw@, self@.class),
                ),
            },
    {
        match self.field(&name.raw) {
            Some(value) => Ok(value),
            None => {
                let mut message = String::from_str("Property ");
                message.append(name.raw.as_str());
                message.append(" does not exist on ");
                message.append(self.to_string().as_str());
                assert(message@ =~= missing_property(name.raw@, self@.class));
                Err(RuntimeException::report(name.clone(), message.as_str()))
            },
        }
    }

    /// Sets the field that `name` names to `value`, whether or not the
    /// instance had it.
    pub fn set(&mut self, name: &Token, value: LoxType)
        requires
            old(self).wf(),
        ensures
            final(self).wf(),
            final(self)@ == old(self)@.with(name.raw@, value@),
    {
        let ghost before = *self;
        proof {
            self.fields.lemma_shape();
        }
        self.fields.insert(name.raw.clone(), value);
        proof {
            if before@.has(name.raw@) {
                assert(0 <= before@.names.index_of(name.raw@) < before@.names.len());
                assert(self@.values =~= before@.values.update(
                    before@.names.index_of(name.raw@),
                    value@,
                ));
            } else {
                assert(self@.values =~= before@.values.push(value@));
            }
        }
    }

    /// The class of the instance.
    pub fn class(&self) -> (r: &LoxClass)
        ensures
            r.name() == self@.class,
    {
        &self.class_
    }

    /// How the instance is written: the name of its class, then ` instance`.
    pub fn to_string(&self) -> (r: String)
        ensures
            r@ == self@.class + " instance"@,
    {
        let mut text = self.class_.to_string();
        text.append(" instance");
        text
    }
}

} // verus!
