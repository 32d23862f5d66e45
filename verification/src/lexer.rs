//! The lexer: from a source text to tokens.

use vstd::prelude::*;
use vstd::string::*;
use crate::common::{is_punctuation, keyword, keyword_kind, punctuation, Lexeme, Token, TokenType};
use crate::text::{chars_of, push_char, text_between};

verus! {

/// What went wrong with a piece of the source text.
pub enum LexFaultKind {
    UnrecognisedSymbol { symbol: char },
    UnclosedStringLiteral { literal: Seq<char> },
    InvalidNumberLiteral { literal: Seq<char>, symbol: char },
}

/// What a lexical error is: what went wrong, and where.
pub struct LexFault {
    pub kind: LexFaultKind,
    pub line: u32,
    pub column: u32,
}

/// What went wrong with a piece of the source text.
#[derive(Debug, PartialEq, Eq)]
pub enum LexerErrorKind {
    UnrecognisedSymbol { symbol: char },
    UnclosedStringLiteral { literal: String },
    InvalidNumberLiteral { literal: String, symbol: char },
}

/// A lexical error: what went wrong, and the position in the source at which
/// it was found.
#[derive(Debug, PartialEq, Eq)]
pub struct LexerError {
    pub kind: LexerErrorKind,
    pub line: u32,
    pub column: u32,
}

impl View for LexerErrorKind {
    type V = LexFaultKind;

    open spec fn view(&self) -> LexFaultKind {
        match self {
            LexerErrorKind::UnrecognisedSymbol { symbol } => LexFaultKind::UnrecognisedSymbol {
                symbol: *symbol,
            },
            LexerErrorKind::UnclosedStringLiteral { literal } => LexFaultKind::UnclosedStringLiteral {
                literal: literal@,
            },
            LexerErrorKind::InvalidNumberLiteral {
                literal,
                symbol,
            } => LexFaultKind::InvalidNumberLiteral { literal: literal@, symbol: *symbol },
        }
    }
}

impl View for LexerError {
    type V = LexFault;

    open spec fn view(&self) -> LexFault {
        LexFault { kind: self.kind@, line: self.line, column: self.column }
    }
}

/// How an error is worded.
pub open spec fn wording(kind: LexFaultKind) -> Seq<char> {
    match kind {
        LexFaultKind::UnrecognisedSymbol { symbol } => "unrecognised symbol "@.push(symbol),
        LexFaultKind::UnclosedStringLiteral { literal } => "invalid string literal "@ + literal
            + ". Expected \" found end of file"@,
        LexFaultKind::InvalidNumberLiteral { literal, symbol } => ("invalid numeric literal "@
            + literal + ". invalid symbol "@).push(symbol),
    }
}

impl LexerErrorKind {
    /// The error in words.
    pub fn to_string(&self) -> (r: String)
        ensures
            r@ == wording(self@),
    {
        match self {
            LexerErrorKind::UnrecognisedSymbol { symbol } => {
                let mut text = String::from_str("unrecognised symbol ");
                push_char(&mut text, *symbol);
                text
            },
            LexerErrorKind::UnclosedStringLiteral { literal } => {
                let mut text = String::from_str("invalid string literal ");
                text.append(literal.as_str());
                text.append(". Expected \" found end of file");
                text
            },
            LexerErrorKind::InvalidNumberLiteral { literal, symbol } => {
                let mut text = String::from_str("invalid numeric literal ");
                text.append(literal.as_str());
                text.append(". invalid symbol ");
                push_char(&mut text, *symbol);
                text
            },
        }
    }
}

/// Whether `c` is white space: a space, a character from tab to carriage
/// return, or one of the other characters that Unicode counts as white space.
pub open spec fn white_space(c: char) -> bool {
    c == ' ' || ('\u{9}' <= c && c <= '\u{d}') || c == '\u{85}' || c == '\u{a0}' || c == '\u{1680}'
        || ('\u{2000}' <= c && c <= '\u{200a}') || c == '\u{2028}' || c == '\u{2029}' || c
        == '\u{202f}' || c == '\u{205f}' || c == '\u{3000}'
}

/// Whether `c` is a decimal digit.
pub open spec fn digit(c: char) -> bool {
    '0' <= c && c <= '9'
}

/// Whether `c` is a letter of the ASCII alphabet.
pub open spec fn letter(c: char) -> bool {
    ('a' <= c && c <= 'z') || ('A' <= c && c <= 'Z')
}

/// Whether `c` may stand in an identifier: a letter, a digit or `_`.
pub open spec fn word_part(c: char) -> bool {
    letter(c) || digit(c) || c == '_'
}

/// Whether `c` is white space.
pub fn is_whitespace(c: char) -> (r: bool)
    ensures
        r == white_space(c),
{
    c == ' ' || ('\u{9}' <= c && c <= '\u{d}') || c == '\u{85}' || c == '\u{a0}' || c == '\u{1680}'
        || ('\u{2000}' <= c && c <= '\u{200a}') || c == '\u{2028}' || c == '\u{2029}' || c
        == '\u{202f}' || c == '\u{205f}' || c == '\u{3000}'
}

/// Whether `c` is a decimal digit.
pub fn is_digit(c: char) -> (r: bool)
    ensures
        r == digit(c),
{
    '0' <= c && c <= '9'
}

/// Whether `c` is a letter of the ASCII alphabet.
pub fn is_letter(c: char) -> (r: bool)
    ensures
        r == letter(c),
{
    ('a' <= c && c <= 'z') || ('A' <= c && c <= 'Z')
}

/// A place in the source: the index of the next character, and the line and
/// column that it stands at.
pub struct Cursor {
    pub at: int,
    pub line: int,
    pub column: int,
}

/// A line or a column as a token holds it.
pub open spec fn ordinal(n: int) -> u32 {
    if 0 <= n <= u32::MAX {
        n as u32
    } else {
        0
    }
}

/// The place behind the character at `c`: in the next column, or at the
/// beginning of the next line if the character is a line feed.
pub open spec fn step(source: Seq<char>, c: Cursor) -> Cursor {
    if 0 <= c.at < source.len() {
        if source[c.at] == '\n' {
            Cursor { at: c.at + 1, line: c.line + 1, column: 1 }
        } else {
            Cursor { at: c.at + 1, line: c.line, column: c.column + 1 }
        }
    } else {
        c
    }
}

/// The end of a line comment: the next line feed, or the end of the source.
pub open spec fn line_comment_end(source: Seq<char>, c: Cursor) -> Cursor
    decreases source.len() - c.at,
{
    if 0 <= c.at < source.len() && source[c.at] != '\n' {
        line_comment_end(source, step(source, c))
    } else {
        c
    }
}

/// The end of a block comment: behind the next `*/`, or the end of the source.
pub open spec fn block_comment_end(source: Seq<char>, c: Cursor) -> Cursor
    decreases source.len() - c.at,
{
    if !(0 <= c.at < source.len()) {
        c
    } else if source[c.at] == '*' && c.at + 1 < source.len() && source[c.at + 1] == '/' {
        step(source, step(source, c))
    } else {
        block_comment_end(source, step(source, c))
    }
}

/// The end of a run of white space.
pub open spec fn whitespace_end(source: Seq<char>, c: Cursor) -> Cursor
    decreases source.len() - c.at,
{
    if 0 <= c.at < source.len() && white_space(source[c.at]) {
        whitespace_end(source, step(source, c))
    } else {
        c
    }
}

/// The end of a string's text: the next `"`, or the end of the source.
pub open spec fn string_end(source: Seq<char>, c: Cursor) -> Cursor
    decreases source.len() - c.at,
{
    if 0 <= c.at < source.len() && source[c.at] != '"' {
        string_end(source, step(source, c))
    } else {
        c
    }
}

/// The end of an identifier.
pub open spec fn identifier_end(source: Seq<char>, c: Cursor) -> Cursor
    decreases source.len() - c.at,
{
    if 0 <= c.at < source.len() && word_part(source[c.at]) {
        identifier_end(source, step(source, c))
    } else {
        c
    }
}

/// Where the scan of a number ended, and what ended it if the number is
/// invalid: the end of the text that is blamed, and the symbol.
pub struct NumberScan {
    pub cursor: Cursor,
    pub invalid: Option<(int, char)>,
}

/// The end of a number. White space, punctuation and the end of the source
/// end it; so does, as an error, a letter, a second `.`, and a `.` that no
/// digit follows. Every other character belongs to the number.
pub open spec fn number_end(source: Seq<char>, c: Cursor, seen_point: bool) -> NumberScan
    decreases source.len() - c.at,
{
    if !(0 <= c.at < source.len()) {
        NumberScan { cursor: c, invalid: None }
    } else if source[c.at] == '.' {
        if seen_point {
            NumberScan { cursor: c, invalid: Some((c.at + 1, '.')) }
        } else {
            let behind = step(source, c);
            if behind.at < source.len() && digit(source[behind.at]) {
                number_end(source, step(source, behind), true)
            } else {
                NumberScan { cursor: behind, invalid: Some((behind.at, '.')) }
            }
        }
    } else if white_space(source[c.at]) || punctuation(source[c.at]) {
        NumberScan { cursor: c, invalid: None }
    } else if letter(source[c.at]) {
        NumberScan { cursor: c, invalid: Some((c.at, source[c.at])) }
    } else {
        number_end(source, step(source, c), seen_point)
    }
}

/// What one step of the lexer gives: the place behind what it read, and the
/// token or the error that it made of it, if any.
pub struct Lexed {
    pub cursor: Cursor,
    pub token: Option<Lexeme>,
    pub fault: Option<LexFault>,
}

/// The token of kind `kind` whose text is `source[from..to]`, at the position `c`.
pub open spec fn lexeme(kind: TokenType, source: Seq<char>, from: int, to: int, c: Cursor) -> Lexeme {
    Lexeme {
        token_type: kind,
        raw: source.subrange(from, to),
        line: ordinal(c.line),
        column: ordinal(c.column),
    }
}

/// A token of kind `kind` was made of `source[from..c.at]`, and the lexer
/// stands at `c`.
pub open spec fn token_at(kind: TokenType, source: Seq<char>, from: int, c: Cursor) -> Lexed {
    Lexed { cursor: c, token: Some(lexeme(kind, source, from, c.at, c)), fault: None }
}

/// The error `kind` was found, and the lexer stands at `c`.
pub open spec fn fault_at(kind: LexFaultKind, c: Cursor) -> Lexed {
    Lexed {
        cursor: c,
        token: None,
        fault: Some(LexFault { kind, line: ordinal(c.line), column: ordinal(c.column) }),
    }
}

/// Nothing was made, and the lexer stands at `c`.
pub open spec fn nothing_at(c: Cursor) -> Lexed {
    Lexed { cursor: c, token: None, fault: None }
}

/// The operator that begins at `c` with one character and takes a second if
/// that is `=`.
pub open spec fn operator(source: Seq<char>, c: Cursor, short: TokenType, long: TokenType) -> Lexed {
    let behind = step(source, c);
    if behind.at < source.len() && source[behind.at] == '=' {
        token_at(long, source, c.at, step(source, behind))
    } else {
        token_at(short, source, c.at, behind)
    }
}

/// What the lexer makes of the source from `c` on, where a character is left:
/// a token, an error, or nothing for white space and comments.
pub open spec fn lexed_token(source: Seq<char>, c: Cursor) -> Lexed {
    let first = source[c.at];
    let behind = step(source, c);
    if first == '(' {
        token_at(TokenType::LeftParen, source, c.at, behind)
    } else if first == ')' {
        token_at(TokenType::RightParen, source, c.at, behind)
    } else if first == '{' {
        token_at(TokenType::LeftBrace, source, c.at, behind)
    } else if first == '}' {
        token_at(TokenType::RightBrace, source, c.at, behind)
    } else if first == ',' {
        token_at(TokenType::Comma, source, c.at, behind)
    } else if first == '.' {
        token_at(TokenType::Dot, source, c.at, behind)
    } else if first == '-' {
        token_at(TokenType::Minus, source, c.at, behind)
    } else if first == '+' {
        token_at(TokenType::Plus, source, c.at, behind)
    } else if first == '*' {
        token_at(TokenType::Star, source, c.at, behind)
    } else if first == ';' {
        token_at(TokenType::SemiColon, source, c.at, behind)
    } else if first == '!' {
        operator(source, c, TokenType::Bang, TokenType::BangEqual)
    } else if first == '<' {
        operator(source, c, TokenType::Less, TokenType::LessEqual)
    } else if first == '>' {
        operator(source, c, TokenType::Greater, TokenType::GreaterEqual)
    } else if first == '=' {
        operator(source, c, TokenType::Equal, TokenType::EqualEqual)
    } else if first == '/' {
        if behind.at < source.len() && source[behind.at] == '/' {
            nothing_at(line_comment_end(source, behind))
        } else if behind.at < source.len() && source[behind.at] == '*' {
            nothing_at(block_comment_end(source, step(source, behind)))
        } else {
            token_at(TokenType::Slash, source, c.at, behind)
        }
    } else if first == '"' {
        let end = string_end(source, behind);
        if end.at < source.len() {
            Lexed {
                cursor: step(source, end),
                token: Some(
                    lexeme(TokenType::Strang, source, behind.at, end.at, step(source, end)),
                ),
                fault: None,
            }
        } else {
            fault_at(
                LexFaultKind::UnclosedStringLiteral { literal: source.subrange(behind.at, end.at) },
                end,
            )
        }
    } else if white_space(first) {
        nothing_at(whitespace_end(source, behind))
    } else if digit(first) {
        let scan = number_end(source, behind, false);
        match scan.invalid {
            None => token_at(TokenType::Number, source, c.at, scan.cursor),
            Some((end, symbol)) => fault_at(
                LexFaultKind::InvalidNumberLiteral { literal: source.subrange(c.at, end), symbol },
                scan.cursor,
            ),
        }
    } else if letter(first) || first == '_' {
        let end = identifier_end(source, behind);
        token_at(
            match keyword_kind(source.subrange(c.at, end.at)) {
                Some(kind) => kind,
                None => TokenType::Identifier,
            },
            source,
            c.at,
            end,
        )
    } else {
        fault_at(LexFaultKind::UnrecognisedSymbol { symbol: first }, behind)
    }
}

/// The tokens and the errors of a source.
pub struct Scan {
    pub tokens: Seq<Lexeme>,
    pub faults: Seq<LexFault>,
}

/// A place behind `c`: `next`, which is one wherever it matters.
pub open spec fn onward(c: Cursor, next: Cursor) -> Cursor {
    if next.at > c.at {
        next
    } else {
        Cursor { at: c.at + 1, ..next }
    }
}

/// What the lexer makes of the source from `c` on: the tokens in order, with
/// the end marker behind the last, and the errors in order.
pub open spec fn lexed(source: Seq<char>, c: Cursor) -> Scan
    decreases
        (if c.at <= source.len() {
            source.len() - c.at
        } else {
            0
        }),
{
    if 0 <= c.at < source.len() {
        let first = lexed_token(source, c);
        let rest = lexed(source, onward(c, first.cursor));
        Scan {
            tokens: match first.token {
                Some(token) => seq![token] + rest.tokens,
                None => rest.tokens,
            },
            faults: match first.fault {
                Some(fault) => seq![fault] + rest.faults,
                None => rest.faults,
            },
        }
    } else {
        Scan {
            tokens: seq![
                Lexeme {
                    token_type: TokenType::EOF,
                    raw: Seq::empty(),
                    line: ordinal(c.line),
                    column: ordinal(c.column),
                },
            ],
            faults: Seq::empty(),
        }
    }
}

/// The place at which a source begins.
pub open spec fn beginning() -> Cursor {
    Cursor { at: 0, line: 1, column: 1 }
}

/// The lexer: it reads a source text character by character and makes tokens
/// of it. It reports every lexical error that it meets.
#[derive(Debug)]
pub struct Lexer {
    source: Vec<char>,
    position: usize,
    tokens: Vec<Token>,
    line: u32,
    column: u32,
    errors: Vec<LexerError>,
}

impl Lexer {
    /// The source text.
    pub closed spec fn source(&self) -> Seq<char> {
        self.source@
    }

    /// The place of the character that is read next.
    pub closed spec fn cursor(&self) -> Cursor {
        Cursor { at: self.position as int, line: self.line as int, column: self.column as int }
    }

    /// The tokens made so far.
    pub closed spec fn tokens(&self) -> Seq<Lexeme> {
        self.tokens@.map_values(|t: Token| t@)
    }

    /// The errors reported so far.
    pub closed spec fn faults(&self) -> Seq<LexFault> {
        self.errors@.map_values(|e: LexerError| e@)
    }

    /// The lexer stands in its source, which is short enough for every line
    /// and column in it to be counted.
    pub closed spec fn wf(&self) -> bool {
        &&& self.position <= self.source@.len()
        &&& self.source@.len() < u32::MAX
        &&& 1 <= self.line <= self.position + 1
        &&& 1 <= self.column <= self.position + 1
    }

    /// The lexer went on from `before` to `cursor` and made nothing.
    pub open spec fn skipped(&self, before: &Lexer, cursor: Cursor) -> bool {
        &&& self.wf()
        &&& self.source() == before.source()
        &&& self.cursor() == cursor
        &&& self.tokens() == before.tokens()
        &&& self.faults() == before.faults()
        &&& before.cursor().at <= cursor.at
    }

    /// A lexer at the beginning of `source`.
    pub fn new(source: &str) -> (r: Self)
        requires
            source@.len() < u32::MAX,
        ensures
            r.wf(),
            r.source() == source@,
            r.cursor() == beginning(),
            r.tokens() == Seq::<Lexeme>::empty(),
            r.faults() == Seq::<LexFault>::empty(),
    {
        let r = Self {
            source: chars_of(source),
            position: 0,
            tokens: Vec::new(),
            line: 1,
            column: 1,
            errors: Vec::new(),
        };
        assert(r.tokens() =~= Seq::<Lexeme>::empty());
        assert(r.faults() =~= Seq::<LexFault>::empty());
        r
    }

    /// Whether the source is read to its end.
    pub fn is_at_end(&self) -> (r: bool)
        requires
            self.wf(),
        ensures
            r == (self.cursor().at >= self.source().len()),
    {
        self.position >= self.source.len()
    }

    /// Whether the next character is `want`.
    fn match_next(&self, want: char) -> (r: bool)
        requires
            self.wf(),
        ensures
            r == (self.cursor().at < self.source().len() && self.source()[self.cursor().at] == want),
    {
        self.position < self.source.len() && self.source[self.position] == want
    }

    /// Takes the next character, if there is one.
    fn consume_char(&mut self) -> (r: Option<char>)
        requires
            old(self).wf(),
        ensures
            final(self).skipped(old(self), step(old(self).source(), old(self).cursor())),
            match r {
                Some(c) => old(self).cursor().at < old(self).source().len() && c == old(
                    self,
                ).source()[old(self).cursor().at],
                None => old(self).cursor().at >= old(self).source().len(),
            },
    {
        if self.position < self.source.len() {
            let c = self.source[self.position];
            if c == '\n' {
                self.line += 1;
                self.column = 1;
            } else {
                self.column += 1;
            }
            self.position += 1;
            Some(c)
        } else {
            None
        }
    }

    /// Passes over a line comment.
    fn skip_line_comment(&mut self)
        requires
            old(self).wf(),
        ensures
            final(self).skipped(old(self), line_comment_end(old(self).source(), old(self).cursor())),
    {
        while self.position < self.source.len() && self.source[self.position] != '\n'
            invariant
                self.skipped(old(self), self.cursor()),
                line_comment_end(old(self).source(), old(self).cursor()) == line_comment_end(
                    self.source(),
                    self.cursor(),
                ),
            decreases self.source().len() - self.cursor().at,
        {
            self.consume_char();
        }
    }

    /// Passes over a block comment, from the `*` that opens it on.
    fn skip_block_comment(&mut self)
        requires
            old(self).wf(),
        ensures
            final(self).skipped(
                old(self),
                block_comment_end(old(self).source(), step(old(self).source(), old(self).cursor())),
            ),
    {
        self.consume_char();
        loop
            invariant
                self.skipped(old(self), self.cursor()),
                block_comment_end(old(self).source(), step(old(self).source(), old(self).cursor()))
                    == block_comment_end(self.source(), self.cursor()),
            decreases self.source().len() - self.cursor().at,
        {
            match self.consume_char() {
                None => {
                    return ;
                },
                Some(c) => {
                    if c == '*' && self.match_next('/') {
                        self.consume_char();
                        return ;
                    }
                },
            }
        }
    }

    /// Passes over white space.
    fn skip_whitespace(&mut self)
        requires
            old(self).wf(),
        ensures
            final(self).skipped(old(self), whitespace_end(old(self).source(), old(self).cursor())),
    {
        while self.position < self.source.len() && is_whitespace(self.source[self.position])
            invariant
                self.skipped(old(self), self.cursor()),
                whitespace_end(old(self).source(), old(self).cursor()) == whitespace_end(
                    self.source(),
                    self.cursor(),
                ),
            decreases self.source().len() - self.cursor().at,
        {
            self.consume_char();
        }
    }

    /// The token of kind `kind` whose text is `source[from..to]`, at the
    /// position that the lexer stands at.
    fn token(&self, kind: TokenType, from: usize, to: usize) -> (r: Token)
        requires
            self.wf(),
            from <= to <= self.source().len(),
        ensures
            r@ == lexeme(kind, self.source(), from as int, to as int, self.cursor()),
    {
        Token {
            token_type: kind,
            raw: text_between(&self.source, from, to),
            line: self.line,
            column: self.column,
        }
    }

    /// The error `kind` at the position that the lexer stands at.
    fn error(&self, kind: LexerErrorKind) -> (r: LexerError)
        requires
            self.wf(),
        ensures
            r@ == (LexFault {
                kind: kind@,
                line: ordinal(self.cursor().line),
                column: ordinal(self.cursor().column),
            }),
    {
        LexerError { kind, line: self.line, column: self.column }
    }

    /// Reads a string from behind its opening `"` on.
    fn parse_string(&mut self) -> (r: Result<Token, LexerError>)
        requires
            old(self).wf(),
        ensures
            ({
                let end = string_end(old(self).source(), old(self).cursor());
                if end.at < old(self).source().len() {
                    &&& final(self).skipped(old(self), step(old(self).source(), end))
                    &&& r matches Ok(token) && token@ == lexeme(
                        TokenType::Strang,
                        old(self).source(),
                        old(self).cursor().at,
                        end.at,
                        step(old(self).source(), end),
                    )
                } else {
                    &&& final(self).skipped(old(self), end)
                    &&& r matches Err(e) && e@ == (LexFault {
                        kind: LexFaultKind::UnclosedStringLiteral {
                            literal: old(self).source().subrange(old(self).cursor().at, end.at),
                        },
                        line: ordinal(end.line),
                        column: ordinal(end.column),
                    })
                }
            }),
    {
        let start = self.position;
        while self.position < self.source.len() && self.source[self.position] != '"'
            invariant
                self.skipped(old(self), self.cursor()),
                start == old(self).cursor().at,
                string_end(old(self).source(), old(self).cursor()) == string_end(
                    self.source(),
                    self.cursor(),
                ),
            decreases self.source().len() - self.cursor().at,
        {
            self.consume_char();
        }
        let end = self.position;
        if end < self.source.len() {
            self.consume_char();
            Ok(self.token(TokenType::Strang, start, end))
        } else {
            Err(
                self.error(
                    LexerErrorKind::UnclosedStringLiteral {
                        literal: text_between(&self.source, start, end),
                    },
                ),
            )
        }
    }

    /// Reads a number whose first digit stands at `start`, from behind that
    /// digit on.
    fn parse_num(&mut self, start: usize) -> (r: Result<Token, LexerError>)
        requires
            old(self).wf(),
            start <= old(self).cursor().at,
        ensures
            ({
                let scan = number_end(old(self).source(), old(self).cursor(), false);
                &&& final(self).skipped(old(self), scan.cursor)
                &&& match scan.invalid {
                    None => r matches Ok(token) && token@ == lexeme(
                        TokenType::Number,
                        old(self).source(),
                        start as int,
                        scan.cursor.at,
                        scan.cursor,
                    ),
                    Some((end, symbol)) => r matches Err(e) && e@ == (LexFault {
                        kind: LexFaultKind::InvalidNumberLiteral {
                            literal: old(self).source().subrange(start as int, end),
                            symbol,
                        },
                        line: ordinal(scan.cursor.line),
                        column: ordinal(scan.cursor.column),
                    }),
                }
            }),
    {
        let mut seen_point = false;
        loop
            invariant
                self.skipped(old(self), self.cursor()),
                start <= old(self).cursor().at,
                number_end(old(self).source(), old(self).cursor(), false) == number_end(
                    self.source(),
                    self.cursor(),
                    seen_point,
                ),
            decreases self.source().len() - self.cursor().at,
        {
            if self.position >= self.source.len() {
                return Ok(self.token(TokenType::Number, start, self.position));
            }
            let c = self.source[self.position];
            if c == '.' {
                if seen_point {
                    return Err(
                        self.error(
                            LexerErrorKind::InvalidNumberLiteral {
                                literal: text_between(&self.source, start, self.position + 1),
                                symbol: '.',
                            },
                        ),
                    );
                }
                seen_point = true;
                self.consume_char();
                if self.position < self.source.len() && is_digit(self.source[self.position]) {
                    self.consume_char();
                } else {
                    return Err(
                        self.error(
                            LexerErrorKind::InvalidNumberLiteral {
                                literal: text_between(&self.source, start, self.position),
                                symbol: '.',
                            },
                        ),
                    );
                }
            } else if is_whitespace(c) || is_punctuation(&c) {
                return Ok(self.token(TokenType::Number, start, self.position));
            } else if is_letter(c) {
                return Err(
                    self.error(
                        LexerErrorKind::InvalidNumberLiteral {
                            literal: text_between(&self.source, start, self.position),
                            symbol: c,
                        },
                    ),
                );
            } else {
                self.consume_char();
            }
        }
    }

    /// Reads an identifier or a keyword whose first character stands at
    /// `start`, from behind that character on.
    fn parse_identifier(&mut self, start: usize) -> (r: Token)
        requires
            old(self).wf(),
            start <= old(self).cursor().at,
        ensures
            ({
                let end = identifier_end(old(self).source(), old(self).cursor());
                &&& final(self).skipped(old(self), end)
                &&& r@ == lexeme(
                    match keyword_kind(old(self).source().subrange(start as int, end.at)) {
                        Some(kind) => kind,
                        None => TokenType::Identifier,
                    },
                    old(self).source(),
                    start as int,
                    end.at,
                    end,
                )
            }),
    {
        let mut word: Vec<char> = Vec::new();
        let mut i: usize = start;
        while i < self.position
            invariant
                self.wf(),
                start <= i <= self.position,
                word@ == self.source@.subrange(start as int, i as int),
            decreases self.position - i,
        {
            word.push(self.source[i]);
            assert(word@ =~= self.source@.subrange(start as int, i + 1));
            i += 1;
        }
        while self.position < self.source.len() && (is_letter(self.source[self.position])
            || is_digit(self.source[self.position]) || self.source[self.position] == '_')
            invariant
                self.skipped(old(self), self.cursor()),
                start <= old(self).cursor().at,
                word@ == self.source().subrange(start as int, self.cursor().at),
                identifier_end(old(self).source(), old(self).cursor()) == identifier_end(
                    self.source(),
                    self.cursor(),
                ),
            decreases self.source().len() - self.cursor().at,
        {
            word.push(self.source[self.position]);
            assert(word@ =~= self.source@.subrange(start as int, self.position + 1));
            self.consume_char();
        }
        let kind = match keyword(&word) {
            Some(kind) => kind,
            None => TokenType::Identifier,
        };
        self.token(kind, start, self.position)
    }

    /// The lexer went on from `before` as `lexed` says.
    pub open spec fn made(&self, before: &Lexer, lexed: Lexed) -> bool {
        &&& self.wf()
        &&& self.source() == before.source()
        &&& self.cursor() == lexed.cursor
        &&& self.tokens() == match lexed.token {
            Some(token) => before.tokens().push(token),
            None => before.tokens(),
        }
        &&& self.faults() == match lexed.fault {
            Some(fault) => before.faults().push(fault),
            None => before.faults(),
        }
    }

    /// Keeps a token.
    fn keep(&mut self, token: Token)
        requires
            old(self).wf(),
        ensures
            final(self).made(
                old(self),
                Lexed { cursor: old(self).cursor(), token: Some(token@), fault: None },
            ),
    {
        self.tokens.push(token);
        assert(self.tokens() =~= old(self).tokens().push(token@));
    }

    /// Reports an error.
    fn report(&mut self, error: LexerError)
        requires
            old(self).wf(),
        ensures
            final(self).made(
                old(self),
                Lexed { cursor: old(self).cursor(), token: None, fault: Some(error@) },
            ),
    {
        self.errors.push(error);
        assert(self.faults() =~= old(self).faults().push(error@));
    }

    /// Makes the token of kind `kind` of the text from `from` up to where the
    /// lexer stands.
    fn emit(&mut self, kind: TokenType, from: usize)
        requires
            old(self).wf(),
            from <= old(self).cursor().at,
        ensures
            final(self).made(
                old(self),
                token_at(kind, old(self).source(), from as int, old(self).cursor()),
            ),
    {
        let token = self.token(kind, from, self.position);
        self.keep(token);
    }

    /// Makes an operator whose first character was read: `long` if `=`
    /// follows, which is then read too, and `short` if not.
    fn operator(&mut self, from: usize, short: TokenType, long: TokenType)
        requires
            old(self).wf(),
            from <= old(self).cursor().at,
        ensures
            final(self).made(
                old(self),
                if old(self).cursor().at < old(self).source().len() && old(self).source()[old(
                    self,
                ).cursor().at] == '=' {
                    token_at(
                        long,
                        old(self).source(),
                        from as int,
                        step(old(self).source(), old(self).cursor()),
                    )
                } else {
                    token_at(short, old(self).source(), from as int, old(self).cursor())
                },
            ),
    {
        if self.match_next('=') {
            self.consume_char();
            self.emit(long, from);
        } else {
            self.emit(short, from);
        }
    }

    /// Reads what stands next in the source, which is not at its end: a
    /// token, which is kept; or an error, which is reported; or white space or
    /// a comment, which is passed over.
    fn lex_token(&mut self)
        requires
            old(self).wf(),
            old(self).cursor().at < old(self).source().len(),
        ensures
            final(self).made(old(self), lexed_token(old(self).source(), old(self).cursor())),
            final(self).cursor().at > old(self).cursor().at,
    {
        let start = self.position;
        let c = self.source[start];
        self.consume_char();
        if c == '(' {
            self.emit(TokenType::LeftParen, start);
        } else if c == ')' {
            self.emit(TokenType::RightParen, start);
        } else if c == '{' {
            self.emit(TokenType::LeftBrace, start);
        } else if c == '}' {
            self.emit(TokenType::RightBrace, start);
        } else if c == ',' {
            self.emit(TokenType::Comma, start);
        } else if c == '.' {
            self.emit(TokenType::Dot, start);
        } else if c == '-' {
            self.emit(TokenType::Minus, start);
        } else if c == '+' {
            self.emit(TokenType::Plus, start);
        } else if c == '*' {
            self.emit(TokenType::Star, start);
        } else if c == ';' {
            self.emit(TokenType::SemiColon, start);
        } else if c == '!' {
            self.operator(start, TokenType::Bang, TokenType::BangEqual);
        } else if c == '<' {
            self.operator(start, TokenType::Less, TokenType::LessEqual);
        } else if c == '>' {
            self.operator(start, TokenType::Greater, TokenType::GreaterEqual);
        } else if c == '=' {
            self.operator(start, TokenType::Equal, TokenType::EqualEqual);
        } else if c == '/' {
            if self.match_next('/') {
                self.skip_line_comment();
            } else if self.match_next('*') {
                self.skip_block_comment();
            } else {
                self.emit(TokenType::Slash, start);
            }
        } else if c == '"' {
            match self.parse_string() {
                Ok(token) => self.keep(token),
                Err(error) => self.report(error),
            }
        } else if is_whitespace(c) {
            self.skip_whitespace();
        } else if is_digit(c) {
            match self.parse_num(start) {
                Ok(token) => self.keep(token),
                Err(error) => self.report(error),
            }
        } else if is_letter(c) || c == '_' {
            let token = self.parse_identifier(start);
            self.keep(token);
        } else {
            let error = self.error(LexerErrorKind::UnrecognisedSymbol { symbol: c });
            self.report(error);
        }
    }

    /// Reads the source to its end, and returns the tokens, with the end
    /// marker behind the last, and the errors.
    pub fn collect_tokens(self) -> (r: (Vec<Token>, Vec<LexerError>))
        requires
            self.wf(),
        ensures
            r.0@.map_values(|t: Token| t@) == self.tokens() + lexed(
                self.source(),
                self.cursor(),
            ).tokens,
            r.1@.map_values(|e: LexerError| e@) == self.faults() + lexed(
                self.source(),
                self.cursor(),
            ).faults,
            r.0@.len() > 0 && r.0@.last().token_type == TokenType::EOF,
    {
        let mut lexer = self;
        let ghost start = self;
        let ghost total = lexed(self.source(), self.cursor());
        while !lexer.is_at_end()
            invariant
                lexer.wf(),
                lexer.source() == start.source(),
                total == lexed(start.source(), start.cursor()),
                start.tokens() + total.tokens == lexer.tokens() + lexed(
                    lexer.source(),
                    lexer.cursor(),
                ).tokens,
                start.faults() + total.faults == lexer.faults() + lexed(
                    lexer.source(),
                    lexer.cursor(),
                ).faults,
            decreases lexer.source().len() - lexer.cursor().at,
        {
            let ghost before = lexer;
            lexer.lex_token();
            proof {
                let first = lexed_token(before.source(), before.cursor());
                let rest = lexed(lexer.source(), lexer.cursor());
                match first.token {
                    Some(token) => {
                        assert(before.tokens() + (seq![token] + rest.tokens)
                            =~= before.tokens().push(token) + rest.tokens);
                    },
                    None => {},
                }
                match first.fault {
                    Some(fault) => {
                        assert(before.faults() + (seq![fault] + rest.faults)
                            =~= before.faults().push(fault) + rest.faults);
                    },
                    None => {},
                }
            }
        }
        proof {
            reveal_strlit("");
        }
        let end = Token::new(TokenType::EOF, "", lexer.line, lexer.column);
        let ghost before = lexer;
        lexer.tokens.push(end);
        proof {
            assert(end.raw@ =~= Seq::<char>::empty());
            assert(lexer.tokens() =~= before.tokens() + lexed(
                before.source(),
                before.cursor(),
            ).tokens);
            assert(before.faults() + lexed(before.source(), before.cursor()).faults
                =~= before.faults());
        }
        (lexer.tokens, lexer.errors)
    }
}

/// A scan ends where it began or behind it.
pub proof fn lemma_scans_go_on(source: Seq<char>, c: Cursor, seen_point: bool)
    ensures
        line_comment_end(source, c).at >= c.at,
        block_comment_end(source, c).at >= c.at,
        whitespace_end(source, c).at >= c.at,
        string_end(source, c).at >= c.at,
        identifier_end(source, c).at >= c.at,
        number_end(source, c, seen_point).cursor.at >= c.at,
    decreases source.len() - c.at,
{
    if 0 <= c.at < source.len() {
        lemma_scans_go_on(source, step(source, c), seen_point);
        lemma_scans_go_on(source, step(source, step(source, c)), true);
    }
}

/// Each step of the lexer reads a character at least, so that the lexer goes
/// through its source from character to character to the end.
pub proof fn lemma_lexer_goes_on(source: Seq<char>, c: Cursor)
    requires
        0 <= c.at < source.len(),
    ensures
        lexed_token(source, c).cursor.at > c.at,
        onward(c, lexed_token(source, c).cursor) == lexed_token(source, c).cursor,
{
    let behind = step(source, c);
    lemma_scans_go_on(source, behind, false);
    lemma_scans_go_on(source, step(source, behind), false);
}

} // verus!
