//! The scanner: token types, the character-level scanning engine, and the
//! functional specification it is verified against.
//!
//! The whole source buffer is scanned in one left-to-right pass.  The spec
//! function [`scan_from`] describes the pass mathematically; the executable
//! [`Tokenizer`] is proved to produce exactly the token and error sequences
//! that the spec function names.

use vstd::prelude::*;
use vstd::string::StrSliceExecFns;

verus! {

/// The syntactic category of a token.
#[derive(Clone, Copy, Debug, PartialEq, Eq, Structural)]
pub enum TokenType {
    // Single-character tokens.
    LeftParen,
    RightParen,
    LeftBrace,
    RightBrace,
    Comma,
    Dot,
    Minus,
    Plus,
    Semicolon,
    Slash,
    Star,
    Colon,
    // One or two character tokens.
    Bang,
    BangEqual,
    Equal,
    EqualEqual,
    Greater,
    GreaterEqual,
    Less,
    LessEqual,
    // Literals.
    Identifier,
    String,
    Number,
    // Keywords.
    And,
    Class,
    Else,
    False,
    Fun,
    For,
    If,
    Nil,
    Or,
    Print,
    Return,
    Super,
    This,
    True,
    Var,
    While,
    // End of input.
    EOF,
}

/// One lexical unit: its category, the exact source characters it was made
/// from (empty for punctuation and operators), and the 1-based line on which
/// it began.  A numeric literal's value is carried exactly by its lexeme
/// (digits, optionally a dot and more digits); turning that into a machine
/// float is left to unverified callers.
#[derive(Clone, Debug, PartialEq)]
pub struct Token {
    pub toktype: TokenType,
    pub lexeme: Vec<char>,
    pub line: u32,
}

/// The mathematical image of a [`Token`].
pub ghost struct SpecToken {
    pub kind: TokenType,
    pub lexeme: Seq<char>,
    pub line: int,
}

impl View for Token {
    type V = SpecToken;

    open spec fn view(&self) -> SpecToken {
        SpecToken { kind: self.toktype, lexeme: self.lexeme@, line: self.line as int }
    }
}

/// What went wrong at one point of the scan.  Both kinds are recovered
/// from: the scan reports them and goes on.
#[derive(Clone, Copy, Debug, PartialEq, Eq, Structural)]
pub enum LexErrorKind {
    /// A character no scanning rule recognizes; it is skipped.
    Unrecognized(char),
    /// A string literal still open when the input ended.
    UnterminatedString,
}

/// A recovered lexical error and the line it was found on (for an
/// unterminated string, the line its opening quote stood on).
#[derive(Clone, Copy, Debug, PartialEq, Eq, Structural)]
pub struct LexError {
    pub kind: LexErrorKind,
    pub line: u32,
}

/// The mathematical image of a [`LexError`].
pub ghost struct SpecLexError {
    pub kind: LexErrorKind,
    pub line: int,
}

impl View for LexError {
    type V = SpecLexError;

    open spec fn view(&self) -> SpecLexError {
        SpecLexError { kind: self.kind, line: self.line as int }
    }
}

/// An ASCII letter or underscore: the characters that may start an
/// identifier.
pub open spec fn alpha_char(c: char) -> bool {
    ('a' <= c && c <= 'z') || ('A' <= c && c <= 'Z') || c == '_'
}

/// An ASCII decimal digit.
pub open spec fn digit_char(c: char) -> bool {
    '0' <= c && c <= '9'
}

/// A character that may continue an identifier run.
pub open spec fn ident_char(c: char) -> bool {
    alpha_char(c) || digit_char(c)
}

/// The position just past the identifier run that starts at `i`: the first
/// position at or after `i` holding a character that cannot continue an
/// identifier, or the end of the source.
pub open spec fn ident_end(src: Seq<char>, i: int) -> int
    decreases src.len() - i
        when 0 <= i <= src.len()
{
    if i < src.len() && ident_char(src[i]) {
        ident_end(src, i + 1)
    } else {
        i
    }
}

/// The position just past the digit run that starts at `i`.
pub open spec fn digit_end(src: Seq<char>, i: int) -> int
    decreases src.len() - i
        when 0 <= i <= src.len()
{
    if i < src.len() && digit_char(src[i]) {
        digit_end(src, i + 1)
    } else {
        i
    }
}

/// The position just past the numeric literal whose first digit stands just
/// before `i`: the remaining integer digits, then a fractional part only when
/// a dot is followed by a further digit.  A trailing dot is left unconsumed.
pub open spec fn number_end(src: Seq<char>, i: int) -> int {
    let j = digit_end(src, i);
    if j + 1 < src.len() && src[j] == '.' && digit_char(src[j + 1]) {
        digit_end(src, j + 1)
    } else {
        j
    }
}

pub proof fn lemma_ident_end_bounds(src: Seq<char>, i: int)
    requires
        0 <= i <= src.len(),
    ensures
        i <= ident_end(src, i) <= src.len(),
        forall|k: int| i <= k < ident_end(src, i) ==> ident_char(src[k]),
        ident_end(src, i) < src.len() ==> !ident_char(src[ident_end(src, i)]),
    decreases src.len() - i,
{
    if i < src.len() && ident_char(src[i]) {
        lemma_ident_end_bounds(src, i + 1);
    }
}

pub proof fn lemma_digit_end_bounds(src: Seq<char>, i: int)
    requires
        0 <= i <= src.len(),
    ensures
        i <= digit_end(src, i) <= src.len(),
        forall|k: int| i <= k < digit_end(src, i) ==> digit_char(src[k]),
        digit_end(src, i) < src.len() ==> !digit_char(src[digit_end(src, i)]),
    decreases src.len() - i,
{
    if i < src.len() && digit_char(src[i]) {
        lemma_digit_end_bounds(src, i + 1);
    }
}

pub proof fn lemma_number_end_bounds(src: Seq<char>, i: int)
    requires
        0 <= i <= src.len(),
    ensures
        i <= number_end(src, i) <= src.len(),
{
    lemma_digit_end_bounds(src, i);
    let j = digit_end(src, i);
    if j + 1 < src.len() && src[j] == '.' && digit_char(src[j + 1]) {
        lemma_digit_end_bounds(src, j + 1);
    }
}

/// The position of the closing quote of a string literal whose opening
/// quote stands just before `i`: the first position at or after `i` holding
/// a double quote, or the end of the source when the literal is
/// unterminated.
pub open spec fn string_end(src: Seq<char>, i: int) -> int
    decreases src.len() - i
        when 0 <= i <= src.len()
{
    if i < src.len() && src[i] != '"' {
        string_end(src, i + 1)
    } else {
        i
    }
}

pub proof fn lemma_string_end_bounds(src: Seq<char>, i: int)
    requires
        0 <= i <= src.len(),
    ensures
        i <= string_end(src, i) <= src.len(),
        string_end(src, i) < src.len() ==> src[string_end(src, i)] == '"',
        forall|k: int| i <= k < string_end(src, i) ==> src[k] != '"',
    decreases src.len() - i,
{
    if i < src.len() && src[i] != '"' {
        lemma_string_end_bounds(src, i + 1);
    }
}

/// How many newline characters stand in `src[i..j)`.
pub open spec fn newline_count(src: Seq<char>, i: int, j: int) -> int
    decreases j - i
        when 0 <= i <= j <= src.len()
{
    if i < j {
        (if src[i] == '\n' {
            1int
        } else {
            0int
        }) + newline_count(src, i + 1, j)
    } else {
        0
    }
}

pub proof fn lemma_newline_count_bounds(src: Seq<char>, i: int, j: int)
    requires
        0 <= i <= j <= src.len(),
    ensures
        0 <= newline_count(src, i, j) <= j - i,
    decreases j - i,
{
    if i < j {
        lemma_newline_count_bounds(src, i + 1, j);
    }
}

proof fn lemma_newline_count_snoc(src: Seq<char>, i: int, j: int)
    requires
        0 <= i <= j < src.len(),
    ensures
        newline_count(src, i, j + 1) == newline_count(src, i, j) + (if src[j] == '\n' {
            1int
        } else {
            0int
        }),
    decreases j - i,
{
    if i < j {
        lemma_newline_count_snoc(src, i + 1, j);
    } else {
        assert(newline_count(src, j + 1, j + 1) == 0);
        assert(newline_count(src, j, j) == 0);
    }
}

/// The token category of a character that is a complete token by itself.
pub open spec fn punct_kind(c: char) -> Option<TokenType> {
    if c == '(' {
        Some(TokenType::LeftParen)
    } else if c == ')' {
        Some(TokenType::RightParen)
    } else if c == '{' {
        Some(TokenType::LeftBrace)
    } else if c == '}' {
        Some(TokenType::RightBrace)
    } else if c == ',' {
        Some(TokenType::Comma)
    } else if c == '.' {
        Some(TokenType::Dot)
    } else if c == '-' {
        Some(TokenType::Minus)
    } else if c == '+' {
        Some(TokenType::Plus)
    } else if c == ';' {
        Some(TokenType::Semicolon)
    } else if c == ':' {
        Some(TokenType::Colon)
    } else if c == '/' {
        Some(TokenType::Slash)
    } else if c == '*' {
        Some(TokenType::Star)
    } else {
        None
    }
}

/// The two token categories a character can begin when it is one of the
/// operators that an `=` may extend: the category taken alone, and the
/// category taken together with a following `=`.
pub open spec fn two_char_kind(c: char) -> Option<(TokenType, TokenType)> {
    if c == '!' {
        Some((TokenType::Bang, TokenType::BangEqual))
    } else if c == '=' {
        Some((TokenType::Equal, TokenType::EqualEqual))
    } else if c == '>' {
        Some((TokenType::Greater, TokenType::GreaterEqual))
    } else if c == '<' {
        Some((TokenType::Less, TokenType::LessEqual))
    } else {
        None
    }
}

/// The reserved-keyword category of an identifier lexeme, or
/// `TokenType::Identifier` when the lexeme is no keyword.  Lookup is
/// case-sensitive and exact-match only.
pub open spec fn keyword_kind(lex: Seq<char>) -> TokenType {
    if lex == "and"@ {
        TokenType::And
    } else if lex == "class"@ {
        TokenType::Class
    } else if lex == "else"@ {
        TokenType::Else
    } else if lex == "false"@ {
        TokenType::False
    } else if lex == "fun"@ {
        TokenType::Fun
    } else if lex == "for"@ {
        TokenType::For
    } else if lex == "if"@ {
        TokenType::If
    } else if lex == "nil"@ {
        TokenType::Nil
    } else if lex == "or"@ {
        TokenType::Or
    } else if lex == "print"@ {
        TokenType::Print
    } else if lex == "return"@ {
        TokenType::Return
    } else if lex == "super"@ {
        TokenType::Super
    } else if lex == "this"@ {
        TokenType::This
    } else if lex == "true"@ {
        TokenType::True
    } else if lex == "var"@ {
        TokenType::Var
    } else if lex == "while"@ {
        TokenType::While
    } else {
        TokenType::Identifier
    }
}

/// Everything one scanning pass produces from some position on: the tokens,
/// the recovered lexical errors, and the line counter at the end of input.
pub ghost struct ScanOut {
    pub toks: Seq<SpecToken>,
    pub errs: Seq<SpecLexError>,
    pub line: int,
}

/// Prepend a token to a partial scan result.
pub open spec fn step_token(t: SpecToken, rest: ScanOut) -> ScanOut {
    ScanOut { toks: seq![t] + rest.toks, errs: rest.errs, line: rest.line }
}

/// Prepend a recovered lexical error to a partial scan result.
pub open spec fn step_err(e: SpecLexError, rest: ScanOut) -> ScanOut {
    ScanOut { toks: rest.toks, errs: seq![e] + rest.errs, line: rest.line }
}

/// The scan of `src` from position `i` on, with the line counter at `line`:
/// one character is classified, a token or error is emitted (or whitespace
/// is skipped, or a newline counted), and the rest of the source is scanned
/// from just past the consumed characters.  The end-of-input token is not
/// included here; [`scan_tokens`] appends it.
pub open spec fn scan_from(src: Seq<char>, i: int, line: int) -> ScanOut
    decreases src.len() - i
        when 0 <= i <= src.len()
        via scan_from_decreases
{
    if i >= src.len() {
        ScanOut { toks: Seq::empty(), errs: Seq::empty(), line }
    } else {
        let c = src[i];
        match punct_kind(c) {
            Some(k) => step_token(
                SpecToken { kind: k, lexeme: Seq::empty(), line },
                scan_from(src, i + 1, line),
            ),
            None => match two_char_kind(c) {
                Some(pair) => {
                    if i + 1 < src.len() && src[i + 1] == '=' {
                        step_token(
                            SpecToken { kind: pair.1, lexeme: Seq::empty(), line },
                            scan_from(src, i + 2, line),
                        )
                    } else {
                        step_token(
                            SpecToken { kind: pair.0, lexeme: Seq::empty(), line },
                            scan_from(src, i + 1, line),
                        )
                    }
                },
                None => {
                    if alpha_char(c) {
                        let j = ident_end(src, i + 1);
                        let lex = src.subrange(i, j);
                        step_token(
                            SpecToken { kind: keyword_kind(lex), lexeme: lex, line },
                            scan_from(src, j, line),
                        )
                    } else if digit_char(c) {
                        let j = number_end(src, i + 1);
                        step_token(
                            SpecToken { kind: TokenType::Number, lexeme: src.subrange(i, j), line },
                            scan_from(src, j, line),
                        )
                    } else if c == '"' {
                        let j = string_end(src, i + 1);
                        if j < src.len() {
                            step_token(
                                SpecToken {
                                    kind: TokenType::String,
                                    lexeme: src.subrange(i, j + 1),
                                    line,
                                },
                                scan_from(src, j + 1, line + newline_count(src, i + 1, j)),
                            )
                        } else {
                            step_err(
                                SpecLexError { kind: LexErrorKind::UnterminatedString, line },
                                scan_from(src, j, line + newline_count(src, i + 1, j)),
                            )
                        }
                    } else if c == ' ' || c == '\t' || c == '\r' {
                        scan_from(src, i + 1, line)
                    } else if c == '\n' {
                        scan_from(src, i + 1, line + 1)
                    } else {
                        step_err(
                            (SpecLexError { kind: LexErrorKind::Unrecognized(c), line }),
                            scan_from(src, i + 1, line),
                        )
                    }
                },
            },
        }
    }
}

#[via_fn]
proof fn scan_from_decreases(src: Seq<char>, i: int, line: int) {
    if 0 <= i && i < src.len() {
        lemma_ident_end_bounds(src, i + 1);
        lemma_digit_end_bounds(src, i + 1);
        let j = digit_end(src, i + 1);
        if j + 1 < src.len() {
            lemma_digit_end_bounds(src, j + 1);
        }
        lemma_string_end_bounds(src, i + 1);
    }
}

/// The full token sequence of one scan of `src`: the tokens of
/// [`scan_from`] started at the beginning on line 1, closed by the
/// end-of-input token carrying the final line number.
pub open spec fn scan_tokens(src: Seq<char>) -> Seq<SpecToken> {
    let out = scan_from(src, 0, 1);
    out.toks.push(SpecToken { kind: TokenType::EOF, lexeme: Seq::empty(), line: out.line })
}

/// The lexical errors one scan of `src` recovers from, in source order.
pub open spec fn scan_lex_errors(src: Seq<char>) -> Seq<SpecLexError> {
    scan_from(src, 0, 1).errs
}

/// The mathematical image of a token sequence.
pub open spec fn toks_of(ts: Seq<Token>) -> Seq<SpecToken> {
    ts.map_values(|t: Token| t@)
}

/// The mathematical image of a lexical-error sequence.
pub open spec fn errs_of(es: Seq<LexError>) -> Seq<SpecLexError> {
    es.map_values(|e: LexError| e@)
}

proof fn lemma_push_assoc<T>(a: Seq<T>, t: T, r: Seq<T>)
    ensures
        a.push(t) + r == a + (seq![t] + r),
{
    assert(a.push(t) + r =~= a + (seq![t] + r));
}

/// The scanning engine: one instance per scan, holding the source buffer,
/// the cursor (`start` marks the lexeme being recognized, `current` the next
/// unconsumed character), the current line, and everything produced so far.
pub struct Tokenizer {
    tokens: Vec<Token>,
    errors: Vec<LexError>,
    source: Vec<char>,
    start: usize,
    current: usize,
    line: u32,
}

impl Tokenizer {
    fn is_at_end(&self) -> (r: bool)
        ensures
            r == (self.current >= self.source@.len()),
    {
        self.current >= self.source.len()
    }

    /// The character `i` positions ahead of the cursor (`i = 1` is the next
    /// unconsumed character), or `None` past the end of input.
    fn peeki(&self, i: usize) -> (r: Option<char>)
        requires
            1 <= i <= 2,
            self.current <= self.source@.len(),
        ensures
            r == (if self.current + i - 1 < self.source@.len() {
                Some(self.source@[self.current + i - 1])
            } else {
                None::<char>
            }),
    {
        let off = i - 1;
        if off < self.source.len() - self.current {
            Some(self.source[self.current + off])
        } else {
            None
        }
    }

    fn peek(&self) -> (r: Option<char>)
        requires
            self.current <= self.source@.len(),
        ensures
            r == (if self.current < self.source@.len() {
                Some(self.source@[self.current as int])
            } else {
                None::<char>
            }),
    {
        self.peeki(1)
    }

    /// Consume and return the next character.
    fn advance(&mut self) -> (c: char)
        requires
            old(self).current < old(self).source@.len(),
        ensures
            c == old(self).source@[old(self).current as int],
            final(self).current == old(self).current + 1,
            final(self).tokens == old(self).tokens,
            final(self).errors == old(self).errors,
            final(self).source == old(self).source,
            final(self).start == old(self).start,
            final(self).line == old(self).line,
    {
        let n = self.source.len();
        proof {
            assert(self.current < n);
        }
        let r = self.source[self.current];
        self.current = self.current + 1;
        r
    }

    /// Consume the next character only if it equals `expected`.
    fn pmatch(&mut self, expected: char) -> (r: bool)
        requires
            old(self).current <= old(self).source@.len(),
        ensures
            r == (old(self).current < old(self).source@.len()
                && old(self).source@[old(self).current as int] == expected),
            final(self).current == old(self).current + (if r {
                1int
            } else {
                0int
            }),
            final(self).tokens == old(self).tokens,
            final(self).errors == old(self).errors,
            final(self).source == old(self).source,
            final(self).start == old(self).start,
            final(self).line == old(self).line,
    {
        if self.is_at_end() {
            return false;
        }
        let n = self.source.len();
        match self.peek() {
            Some(c) => {
                if c == expected {
                    proof {
                        assert(self.current < n);
                    }
                    self.current = self.current + 1;
                    true
                } else {
                    false
                }
            },
            None => false,
        }
    }

    /// Emit a punctuation or operator token: no lexeme, current line.
    fn add_token(&mut self, toktype: TokenType)
        ensures
            toks_of(final(self).tokens@) == toks_of(old(self).tokens@).push(
                (SpecToken { kind: toktype, lexeme: Seq::empty(), line: old(self).line as int }),
            ),
            final(self).errors == old(self).errors,
            final(self).source == old(self).source,
            final(self).start == old(self).start,
            final(self).current == old(self).current,
            final(self).line == old(self).line,
    {
        let line = self.line;
        let t = Token { toktype, lexeme: Vec::new(), line };
        self.tokens.push(t);
        proof {
            assert(toks_of(self.tokens@) =~= toks_of(old(self).tokens@).push(
                (SpecToken { kind: toktype, lexeme: Seq::empty(), line: old(self).line as int }),
            ));
        }
    }

    /// Emit a numeric-literal token carrying its exact lexeme.
    fn add_token_number(&mut self, lexeme: Vec<char>)
        ensures
            toks_of(final(self).tokens@) == toks_of(old(self).tokens@).push(
                (SpecToken {
                    kind: TokenType::Number,
                    lexeme: lexeme@,
                    line: old(self).line as int,
                }),
            ),
            final(self).errors == old(self).errors,
            final(self).source == old(self).source,
            final(self).start == old(self).start,
            final(self).current == old(self).current,
            final(self).line == old(self).line,
    {
        let line = self.line;
        let ghost lex = lexeme@;
        let t = Token { toktype: TokenType::Number, lexeme, line };
        self.tokens.push(t);
        proof {
            assert(toks_of(self.tokens@) =~= toks_of(old(self).tokens@).push(
                (SpecToken { kind: TokenType::Number, lexeme: lex, line: old(self).line as int }),
            ));
        }
    }

    /// Emit an identifier-shaped token, resolved against the keyword table.
    fn add_token_identifer(&mut self, lexeme: Vec<char>)
        ensures
            toks_of(final(self).tokens@) == toks_of(old(self).tokens@).push(
                (SpecToken {
                    kind: keyword_kind(lexeme@),
                    lexeme: lexeme@,
                    line: old(self).line as int,
                }),
            ),
            final(self).errors == old(self).errors,
            final(self).source == old(self).source,
            final(self).start == old(self).start,
            final(self).current == old(self).current,
            final(self).line == old(self).line,
    {
        let toktype = lookup_keyword(&lexeme);
        let line = self.line;
        let ghost lex = lexeme@;
        let t = Token { toktype, lexeme, line };
        self.tokens.push(t);
        proof {
            assert(toks_of(self.tokens@) =~= toks_of(old(self).tokens@).push(
                (SpecToken { kind: keyword_kind(lex), lexeme: lex, line: old(self).line as int }),
            ));
        }
    }

    fn is_alpha(&self, c: char) -> (r: bool)
        ensures
            r == alpha_char(c),
    {
        (c >= 'a' && c <= 'z') || (c >= 'A' && c <= 'Z') || c == '_'
    }

    fn is_numeric(&self, c: char) -> (r: bool)
        ensures
            r == digit_char(c),
    {
        c >= '0' && c <= '9'
    }

    /// Consume the rest of an identifier run whose first character stands at
    /// `start`, and emit the identifier or keyword token for it.
    fn alpha(&mut self)
        requires
            old(self).start <= old(self).current <= old(self).source@.len(),
        ensures
            final(self).source == old(self).source,
            final(self).errors == old(self).errors,
            final(self).start == old(self).start,
            final(self).line == old(self).line,
            old(self).current <= final(self).current,
            final(self).current as int == ident_end(old(self).source@, old(self).current as int),
            toks_of(final(self).tokens@) == toks_of(old(self).tokens@).push(
                (SpecToken {
                    kind: keyword_kind(
                        old(self).source@.subrange(
                            old(self).start as int,
                            ident_end(old(self).source@, old(self).current as int),
                        ),
                    ),
                    lexeme: old(self).source@.subrange(
                        old(self).start as int,
                        ident_end(old(self).source@, old(self).current as int),
                    ),
                    line: old(self).line as int,
                }),
            ),
    {
        let end = ident_run_end(&self.source, self.current);
        self.current = end;
        let lexeme = copy_range(&self.source, self.start, self.current);
        self.add_token_identifer(lexeme);
    }

    /// Consume the rest of a numeric literal whose first digit stands at
    /// `start`, and emit its token.  The fractional part is entered only when
    /// the dot is followed by a digit, so a trailing dot is left for the next
    /// token.
    fn number(&mut self)
        requires
            old(self).start <= old(self).current <= old(self).source@.len(),
        ensures
            final(self).source == old(self).source,
            final(self).errors == old(self).errors,
            final(self).start == old(self).start,
            final(self).line == old(self).line,
            old(self).current <= final(self).current,
            final(self).current as int == number_end(old(self).source@, old(self).current as int),
            toks_of(final(self).tokens@) == toks_of(old(self).tokens@).push(
                (SpecToken {
                    kind: TokenType::Number,
                    lexeme: old(self).source@.subrange(
                        old(self).start as int,
                        number_end(old(self).source@, old(self).current as int),
                    ),
                    line: old(self).line as int,
                }),
            ),
    {
        let mut end = digit_run_end(&self.source, self.current);
        if end < self.source.len() {
            if self.source[end] == '.' {
                if end + 1 < self.source.len() {
                    if is_digit_char_exec(self.source[end + 1]) {
                        end = digit_run_end(&self.source, end + 1);
                        proof {
                            lemma_digit_end_bounds(
                                self.source@,
                                old(self).current as int,
                            );
                        }
                    }
                }
            }
        }
        self.current = end;
        let lexeme = copy_range(&self.source, self.start, self.current);
        self.add_token_number(lexeme);
    }

    /// Consume a string literal whose opening quote stands at `start`,
    /// through its closing quote, counting embedded newlines against the
    /// line counter.  There are no escape sequences: every character up to
    /// the first closing quote belongs to the literal, newlines included.
    /// When the input ends before a closing quote, an unterminated-string
    /// error is reported at the line the literal began on and no token is
    /// emitted.
    fn string(&mut self)
        requires
            old(self).start as int + 1 == old(self).current as int,
            old(self).current <= old(self).source@.len(),
            1 <= old(self).line,
            old(self).line as int <= 1 + old(self).start as int,
            old(self).source@.len() < u32::MAX,
        ensures
            final(self).source == old(self).source,
            final(self).start == old(self).start,
            ({
                let src = old(self).source@;
                let j = string_end(src, old(self).current as int);
                let nl = newline_count(src, old(self).current as int, j);
                if j < src.len() {
                    &&& final(self).current as int == j + 1
                    &&& final(self).line as int == old(self).line + nl
                    &&& final(self).errors == old(self).errors
                    &&& toks_of(final(self).tokens@) == toks_of(old(self).tokens@).push(
                        (SpecToken {
                            kind: TokenType::String,
                            lexeme: src.subrange(old(self).start as int, j + 1),
                            line: old(self).line as int,
                        }),
                    )
                } else {
                    &&& final(self).current as int == j
                    &&& final(self).line as int == old(self).line + nl
                    &&& final(self).tokens == old(self).tokens
                    &&& errs_of(final(self).errors@) == errs_of(old(self).errors@).push(
                        (SpecLexError {
                            kind: LexErrorKind::UnterminatedString,
                            line: old(self).line as int,
                        }),
                    )
                }
            }),
    {
        let ghost src: Seq<char> = self.source@;
        let ghost i0: int = self.current as int;
        let mut j = self.current;
        let mut nl: u32 = 0;
        while j < self.source.len() && !is_quote_exec(self.source[j])
            invariant
                self == old(self),
                self.source@ == src,
                0 <= i0,
                i0 <= j as int <= src.len(),
                src.len() < u32::MAX,
                string_end(src, j as int) == string_end(src, i0),
                nl as int == newline_count(src, i0, j as int),
                nl as int <= j as int - i0,
            decreases src.len() - j,
        {
            proof {
                lemma_newline_count_snoc(src, i0, j as int);
            }
            if self.source[j] == '\n' {
                nl = nl + 1;
            }
            j = j + 1;
        }
        proof {
            assert(j as int == string_end(src, i0));
            lemma_string_end_bounds(src, i0);
        }
        if j < self.source.len() {
            self.current = j + 1;
            let lexeme = copy_range(&self.source, self.start, self.current);
            let line = self.line;
            let ghost lex = lexeme@;
            self.tokens.push(Token { toktype: TokenType::String, lexeme, line });
            proof {
                assert(toks_of(self.tokens@) =~= toks_of(old(self).tokens@).push(
                    (SpecToken { kind: TokenType::String, lexeme: lex, line: line as int }),
                ));
            }
            self.line = self.line + nl;
        } else {
            self.current = j;
            let line = self.line;
            self.errors.push(LexError { kind: LexErrorKind::UnterminatedString, line });
            proof {
                assert(errs_of(self.errors@) =~= errs_of(old(self).errors@).push(
                    (SpecLexError { kind: LexErrorKind::UnterminatedString, line: line as int }),
                ));
            }
            self.line = self.line + nl;
        }
    }

    /// One complete left-to-right pass over the source: every character is
    /// classified and consumed, tokens and recovered lexical errors are
    /// collected in source order, and the sequence is closed with the
    /// end-of-input token carrying the final line number.
    fn scan(&mut self)
        requires
            old(self).current == 0,
            old(self).line == 1,
            old(self).tokens@ == Seq::<Token>::empty(),
            old(self).errors@ == Seq::<LexError>::empty(),
            old(self).source@.len() < u32::MAX,
        ensures
            final(self).source@ == old(self).source@,
            toks_of(final(self).tokens@) == scan_tokens(old(self).source@),
            errs_of(final(self).errors@) == scan_lex_errors(old(self).source@),
    {
        let ghost src: Seq<char> = self.source@;
        while !self.is_at_end()
            invariant
                self.source@ == src,
                self.current <= src.len(),
                1 <= self.line,
                self.line as int <= 1 + self.current as int,
                src.len() < u32::MAX,
                toks_of(self.tokens@) + scan_from(src, self.current as int, self.line as int).toks
                    == scan_from(src, 0, 1).toks,
                errs_of(self.errors@) + scan_from(src, self.current as int, self.line as int).errs
                    == scan_from(src, 0, 1).errs,
                scan_from(src, self.current as int, self.line as int).line == scan_from(
                    src,
                    0,
                    1,
                ).line,
            decreases src.len() - self.current,
        {
            self.start = self.current;
            let ghost i: int = self.current as int;
            let ghost ln: int = self.line as int;
            let ghost pre_toks: Seq<SpecToken> = toks_of(self.tokens@);
            let ghost pre_errs: Seq<SpecLexError> = errs_of(self.errors@);
            let c = self.advance();
            match punct_kind_exec(c) {
                Some(k) => {
                    self.add_token(k);
                    proof {
                        lemma_step_punct(src, i, ln, k);
                        lemma_push_assoc(
                            pre_toks,
                            (SpecToken { kind: k, lexeme: Seq::empty(), line: ln }),
                            scan_from(src, i + 1, ln).toks,
                        );
                    }
                },
                None => {
                    match two_char_kind_exec(c) {
                        Some(pair) => {
                            if self.pmatch('=') {
                                self.add_token(pair.1);
                                proof {
                                    lemma_step_two_char(src, i, ln, pair.0, pair.1);
                                    lemma_push_assoc(
                                        pre_toks,
                                        (SpecToken { kind: pair.1, lexeme: Seq::empty(), line: ln }),
                                        scan_from(src, i + 2, ln).toks,
                                    );
                                }
                            } else {
                                self.add_token(pair.0);
                                proof {
                                    lemma_step_two_char(src, i, ln, pair.0, pair.1);
                                    lemma_push_assoc(
                                        pre_toks,
                                        (SpecToken { kind: pair.0, lexeme: Seq::empty(), line: ln }),
                                        scan_from(src, i + 1, ln).toks,
                                    );
                                }
                            }
                        },
                        None => {
                            if self.is_alpha(c) {
                                self.alpha();
                                proof {
                                    lemma_ident_end_bounds(src, i + 1);
                                    lemma_step_ident(src, i, ln);
                                    lemma_push_assoc(
                                        pre_toks,
                                        (SpecToken {
                                            kind: keyword_kind(
                                                src.subrange(i, ident_end(src, i + 1)),
                                            ),
                                            lexeme: src.subrange(i, ident_end(src, i + 1)),
                                            line: ln,
                                        }),
                                        scan_from(src, ident_end(src, i + 1), ln).toks,
                                    );
                                }
                            } else if self.is_numeric(c) {
                                self.number();
                                proof {
                                    lemma_number_end_bounds(src, i + 1);
                                    lemma_step_number(src, i, ln);
                                    lemma_push_assoc(
                                        pre_toks,
                                        (SpecToken {
                                            kind: TokenType::Number,
                                            lexeme: src.subrange(i, number_end(src, i + 1)),
                                            line: ln,
                                        }),
                                        scan_from(src, number_end(src, i + 1), ln).toks,
                                    );
                                }
                            } else if c == '"' {
                                self.string();
                                proof {
                                    lemma_string_end_bounds(src, i + 1);
                                    lemma_newline_count_bounds(src, i + 1, string_end(src, i + 1));
                                    lemma_step_string(src, i, ln);
                                    let j = string_end(src, i + 1);
                                    let ln2 = ln + newline_count(src, i + 1, j);
                                    if j < src.len() {
                                        lemma_push_assoc(
                                            pre_toks,
                                            (SpecToken {
                                                kind: TokenType::String,
                                                lexeme: src.subrange(i, j + 1),
                                                line: ln,
                                            }),
                                            scan_from(src, j + 1, ln2).toks,
                                        );
                                    } else {
                                        lemma_push_assoc(
                                            pre_errs,
                                            (SpecLexError {
                                                kind: LexErrorKind::UnterminatedString,
                                                line: ln,
                                            }),
                                            scan_from(src, j, ln2).errs,
                                        );
                                    }
                                }
                            } else if c == ' ' || c == '\t' || c == '\r' {
                                proof {
                                    lemma_step_skip(src, i, ln);
                                }
                            } else if c == '\n' {
                                proof {
                                    lemma_step_newline(src, i, ln);
                                    assert(self.line < u32::MAX);
                                }
                                self.line = self.line + 1;
                            } else {
                                let line = self.line;
                                self.errors.push(LexError { kind: LexErrorKind::Unrecognized(c), line });
                                proof {
                                    lemma_step_err(src, i, ln);
                                    assert(errs_of(self.errors@) =~= pre_errs.push(
                                        (SpecLexError { kind: LexErrorKind::Unrecognized(c), line: ln }),
                                    ));
                                    lemma_push_assoc(
                                        pre_errs,
                                        (SpecLexError { kind: LexErrorKind::Unrecognized(c), line: ln }),
                                        scan_from(src, i + 1, ln).errs,
                                    );
                                }
                            }
                        },
                    }
                },
            }
        }
        proof {
            assert(self.current as int == src.len());
            assert(scan_from(src, src.len() as int, self.line as int) == (ScanOut {
                toks: Seq::<SpecToken>::empty(),
                errs: Seq::<SpecLexError>::empty(),
                line: self.line as int,
            }));
            assert(toks_of(self.tokens@) + Seq::<SpecToken>::empty() =~= toks_of(self.tokens@));
            assert(errs_of(self.errors@) + Seq::<SpecLexError>::empty() =~= errs_of(self.errors@));
        }
        let line = self.line;
        self.tokens.push(Token { toktype: TokenType::EOF, lexeme: Vec::new(), line });
        proof {
            assert(toks_of(self.tokens@) =~= scan_tokens(src));
        }
    }
}


fn is_digit_char_exec(c: char) -> (r: bool)
    ensures
        r == digit_char(c),
{
    c >= '0' && c <= '9'
}

fn is_quote_exec(c: char) -> (r: bool)
    ensures
        r == (c == '"'),
{
    c == '"'
}

fn is_ident_char_exec(c: char) -> (r: bool)
    ensures
        r == ident_char(c),
{
    (c >= 'a' && c <= 'z') || (c >= 'A' && c <= 'Z') || c == '_' || (c >= '0' && c <= '9')
}

/// The first position at or after `from` that cannot continue an identifier.
fn ident_run_end(source: &Vec<char>, from: usize) -> (end: usize)
    requires
        from <= source@.len(),
    ensures
        end as int == ident_end(source@, from as int),
        from <= end <= source@.len(),
{
    let mut j = from;
    while j < source.len() && is_ident_char_exec(source[j])
        invariant
            from <= j <= source@.len(),
            ident_end(source@, j as int) == ident_end(source@, from as int),
        decreases source@.len() - j,
    {
        j = j + 1;
    }
    j
}

/// The first position at or after `from` that holds no decimal digit.
fn digit_run_end(source: &Vec<char>, from: usize) -> (end: usize)
    requires
        from <= source@.len(),
    ensures
        end as int == digit_end(source@, from as int),
        from <= end <= source@.len(),
{
    let mut j = from;
    while j < source.len() && is_digit_char_exec(source[j])
        invariant
            from <= j <= source@.len(),
            digit_end(source@, j as int) == digit_end(source@, from as int),
        decreases source@.len() - j,
    {
        j = j + 1;
    }
    j
}

/// A fresh copy of `source[from..to]`.
fn copy_range(source: &Vec<char>, from: usize, to: usize) -> (r: Vec<char>)
    requires
        from <= to <= source@.len(),
    ensures
        r@ == source@.subrange(from as int, to as int),
{
    let mut r: Vec<char> = Vec::new();
    let mut k = from;
    while k < to
        invariant
            from <= k <= to <= source@.len(),
            r@ == source@.subrange(from as int, k as int),
        decreases to - k,
    {
        r.push(source[k]);
        proof {
            assert(r@ =~= source@.subrange(from as int, k + 1 as int));
        }
        k = k + 1;
    }
    r
}

// One definitional unfolding of `scan_from` for each way a character can be
// classified.  The scan loop re-establishes its invariant with these.

proof fn lemma_step_punct(src: Seq<char>, i: int, line: int, k: TokenType)
    requires
        0 <= i < src.len(),
        punct_kind(src[i]) == Some(k),
    ensures
        scan_from(src, i, line) == step_token(
            (SpecToken { kind: k, lexeme: Seq::empty(), line }),
            scan_from(src, i + 1, line),
        ),
{
}

proof fn lemma_step_two_char(src: Seq<char>, i: int, line: int, k1: TokenType, k2: TokenType)
    requires
        0 <= i < src.len(),
        punct_kind(src[i]) is None,
        two_char_kind(src[i]) == Some((k1, k2)),
    ensures
        i + 1 < src.len() && src[i + 1] == '=' ==> scan_from(src, i, line) == step_token(
            (SpecToken { kind: k2, lexeme: Seq::empty(), line }),
            scan_from(src, i + 2, line),
        ),
        !(i + 1 < src.len() && src[i + 1] == '=') ==> scan_from(src, i, line) == step_token(
            (SpecToken { kind: k1, lexeme: Seq::empty(), line }),
            scan_from(src, i + 1, line),
        ),
{
}

proof fn lemma_step_ident(src: Seq<char>, i: int, line: int)
    requires
        0 <= i < src.len(),
        punct_kind(src[i]) is None,
        two_char_kind(src[i]) is None,
        alpha_char(src[i]),
    ensures
        scan_from(src, i, line) == step_token(
            (SpecToken {
                kind: keyword_kind(src.subrange(i, ident_end(src, i + 1))),
                lexeme: src.subrange(i, ident_end(src, i + 1)),
                line,
            }),
            scan_from(src, ident_end(src, i + 1), line),
        ),
{
    lemma_ident_end_bounds(src, i + 1);
}

proof fn lemma_step_number(src: Seq<char>, i: int, line: int)
    requires
        0 <= i < src.len(),
        punct_kind(src[i]) is None,
        two_char_kind(src[i]) is None,
        !alpha_char(src[i]),
        digit_char(src[i]),
    ensures
        scan_from(src, i, line) == step_token(
            (SpecToken {
                kind: TokenType::Number,
                lexeme: src.subrange(i, number_end(src, i + 1)),
                line,
            }),
            scan_from(src, number_end(src, i + 1), line),
        ),
{
    lemma_number_end_bounds(src, i + 1);
    lemma_digit_end_bounds(src, i + 1);
    let j = digit_end(src, i + 1);
    if j + 1 < src.len() {
        lemma_digit_end_bounds(src, j + 1);
    }
}

proof fn lemma_step_string(src: Seq<char>, i: int, line: int)
    requires
        0 <= i < src.len(),
        punct_kind(src[i]) is None,
        two_char_kind(src[i]) is None,
        !alpha_char(src[i]),
        !digit_char(src[i]),
        src[i] == '"',
    ensures
        string_end(src, i + 1) < src.len() ==> scan_from(src, i, line) == step_token(
            (SpecToken {
                kind: TokenType::String,
                lexeme: src.subrange(i, string_end(src, i + 1) + 1),
                line,
            }),
            scan_from(
                src,
                string_end(src, i + 1) + 1,
                line + newline_count(src, i + 1, string_end(src, i + 1)),
            ),
        ),
        string_end(src, i + 1) >= src.len() ==> scan_from(src, i, line) == step_err(
            (SpecLexError { kind: LexErrorKind::UnterminatedString, line }),
            scan_from(
                src,
                string_end(src, i + 1),
                line + newline_count(src, i + 1, string_end(src, i + 1)),
            ),
        ),
{
    lemma_string_end_bounds(src, i + 1);
}

proof fn lemma_step_skip(src: Seq<char>, i: int, line: int)
    requires
        0 <= i < src.len(),
        punct_kind(src[i]) is None,
        two_char_kind(src[i]) is None,
        !alpha_char(src[i]),
        !digit_char(src[i]),
        src[i] != '"',
        src[i] == ' ' || src[i] == '\t' || src[i] == '\r',
    ensures
        scan_from(src, i, line) == scan_from(src, i + 1, line),
{
}

proof fn lemma_step_newline(src: Seq<char>, i: int, line: int)
    requires
        0 <= i < src.len(),
        punct_kind(src[i]) is None,
        two_char_kind(src[i]) is None,
        !alpha_char(src[i]),
        !digit_char(src[i]),
        src[i] != '"',
        src[i] == '\n',
    ensures
        scan_from(src, i, line) == scan_from(src, i + 1, line + 1),
{
}

proof fn lemma_step_err(src: Seq<char>, i: int, line: int)
    requires
        0 <= i < src.len(),
        punct_kind(src[i]) is None,
        two_char_kind(src[i]) is None,
        !alpha_char(src[i]),
        !digit_char(src[i]),
        src[i] != '"',
        src[i] != ' ' && src[i] != '\t' && src[i] != '\r' && src[i] != '\n',
    ensures
        scan_from(src, i, line) == step_err(
            (SpecLexError { kind: LexErrorKind::Unrecognized(src[i]), line }),
            scan_from(src, i + 1, line),
        ),
{
}

/// Executable image of [`punct_kind`].
fn punct_kind_exec(c: char) -> (r: Option<TokenType>)
    ensures
        r == punct_kind(c),
{
    if c == '(' {
        Some(TokenType::LeftParen)
    } else if c == ')' {
        Some(TokenType::RightParen)
    } else if c == '{' {
        Some(TokenType::LeftBrace)
    } else if c == '}' {
        Some(TokenType::RightBrace)
    } else if c == ',' {
        Some(TokenType::Comma)
    } else if c == '.' {
        Some(TokenType::Dot)
    } else if c == '-' {
        Some(TokenType::Minus)
    } else if c == '+' {
        Some(TokenType::Plus)
    } else if c == ';' {
        Some(TokenType::Semicolon)
    } else if c == ':' {
        Some(TokenType::Colon)
    } else if c == '/' {
        Some(TokenType::Slash)
    } else if c == '*' {
        Some(TokenType::Star)
    } else {
        None
    }
}

/// Executable image of [`two_char_kind`].
fn two_char_kind_exec(c: char) -> (r: Option<(TokenType, TokenType)>)
    ensures
        r == two_char_kind(c),
{
    if c == '!' {
        Some((TokenType::Bang, TokenType::BangEqual))
    } else if c == '=' {
        Some((TokenType::Equal, TokenType::EqualEqual))
    } else if c == '>' {
        Some((TokenType::Greater, TokenType::GreaterEqual))
    } else if c == '<' {
        Some((TokenType::Less, TokenType::LessEqual))
    } else {
        None
    }
}

/// The keyword table: maps an identifier lexeme to its reserved-keyword
/// category, or to `TokenType::Identifier` when it is no keyword.
pub fn lookup_keyword(lexeme: &Vec<char>) -> (t: TokenType)
    ensures
        t == keyword_kind(lexeme@),
{
    proof {
        reveal_strlit("and");
        reveal_strlit("class");
        reveal_strlit("else");
        reveal_strlit("false");
        reveal_strlit("fun");
        reveal_strlit("for");
        reveal_strlit("if");
        reveal_strlit("nil");
        reveal_strlit("or");
        reveal_strlit("print");
        reveal_strlit("return");
        reveal_strlit("super");
        reveal_strlit("this");
        reveal_strlit("true");
        reveal_strlit("var");
        reveal_strlit("while");
    }
    let n = lexeme.len();
    if n == 2 {
        let c0 = lexeme[0];
        let c1 = lexeme[1];
        if c0 == 'i' && c1 == 'f' {
            proof {
                assert(lexeme@ =~= "if"@);
            }
            return TokenType::If;
        }
        if c0 == 'o' && c1 == 'r' {
            proof {
                assert(lexeme@ =~= "or"@);
            }
            return TokenType::Or;
        }
    } else if n == 3 {
        let c0 = lexeme[0];
        let c1 = lexeme[1];
        let c2 = lexeme[2];
        if c0 == 'a' && c1 == 'n' && c2 == 'd' {
            proof {
                assert(lexeme@ =~= "and"@);
            }
            return TokenType::And;
        }
        if c0 == 'f' && c1 == 'u' && c2 == 'n' {
            proof {
                assert(lexeme@ =~= "fun"@);
            }
            return TokenType::Fun;
        }
        if c0 == 'f' && c1 == 'o' && c2 == 'r' {
            proof {
                assert(lexeme@ =~= "for"@);
            }
            return TokenType::For;
        }
        if c0 == 'n' && c1 == 'i' && c2 == 'l' {
            proof {
                assert(lexeme@ =~= "nil"@);
            }
            return TokenType::Nil;
        }
        if c0 == 'v' && c1 == 'a' && c2 == 'r' {
            proof {
                assert(lexeme@ =~= "var"@);
            }
            return TokenType::Var;
        }
    } else if n == 4 {
        let c0 = lexeme[0];
        let c1 = lexeme[1];
        let c2 = lexeme[2];
        let c3 = lexeme[3];
        if c0 == 'e' && c1 == 'l' && c2 == 's' && c3 == 'e' {
            proof {
                assert(lexeme@ =~= "else"@);
            }
            return TokenType::Else;
        }
        if c0 == 't' && c1 == 'h' && c2 == 'i' && c3 == 's' {
            proof {
                assert(lexeme@ =~= "this"@);
            }
            return TokenType::This;
        }
        if c0 == 't' && c1 == 'r' && c2 == 'u' && c3 == 'e' {
            proof {
                assert(lexeme@ =~= "true"@);
            }
            return TokenType::True;
        }
    } else if n == 5 {
        let c0 = lexeme[0];
        let c1 = lexeme[1];
        let c2 = lexeme[2];
        let c3 = lexeme[3];
        let c4 = lexeme[4];
        if c0 == 'c' && c1 == 'l' && c2 == 'a' && c3 == 's' && c4 == 's' {
            proof {
                assert(lexeme@ =~= "class"@);
            }
            return TokenType::Class;
        }
        if c0 == 'f' && c1 == 'a' && c2 == 'l' && c3 == 's' && c4 == 'e' {
            proof {
                assert(lexeme@ =~= "false"@);
            }
            return TokenType::False;
        }
        if c0 == 'p' && c1 == 'r' && c2 == 'i' && c3 == 'n' && c4 == 't' {
            proof {
                assert(lexeme@ =~= "print"@);
            }
            return TokenType::Print;
        }
        if c0 == 's' && c1 == 'u' && c2 == 'p' && c3 == 'e' && c4 == 'r' {
            proof {
                assert(lexeme@ =~= "super"@);
            }
            return TokenType::Super;
        }
        if c0 == 'w' && c1 == 'h' && c2 == 'i' && c3 == 'l' && c4 == 'e' {
            proof {
                assert(lexeme@ =~= "while"@);
            }
            return TokenType::While;
        }
    } else if n == 6 {
        let c0 = lexeme[0];
        let c1 = lexeme[1];
        let c2 = lexeme[2];
        let c3 = lexeme[3];
        let c4 = lexeme[4];
        let c5 = lexeme[5];
        if c0 == 'r' && c1 == 'e' && c2 == 't' && c3 == 'u' && c4 == 'r' && c5 == 'n' {
            proof {
                assert(lexeme@ =~= "return"@);
            }
            return TokenType::Return;
        }
    }
    TokenType::Identifier
}

proof fn lemma_props_cons(t: SpecToken, rest: ScanOut, line: int, line2: int)
    requires
        line <= line2,
        t.line == line,
        t.kind != TokenType::EOF,
        line2 <= rest.line,
        forall|k: int| 0 <= k < rest.toks.len() ==> (#[trigger] rest.toks[k]).kind
            != TokenType::EOF,
        forall|k: int|
            0 <= k < rest.toks.len() ==> line2 <= (#[trigger] rest.toks[k]).line <= rest.line,
        forall|k1: int, k2: int|
            #![trigger rest.toks[k1], rest.toks[k2]]
            0 <= k1 <= k2 < rest.toks.len() ==> rest.toks[k1].line <= rest.toks[k2].line,
    ensures
        line <= step_token(t, rest).line,
        forall|k: int|
            0 <= k < step_token(t, rest).toks.len() ==> (#[trigger] step_token(t, rest).toks[k]).kind
                != TokenType::EOF,
        forall|k: int|
            0 <= k < step_token(t, rest).toks.len() ==> line <= (#[trigger] step_token(
                t,
                rest,
            ).toks[k]).line <= step_token(t, rest).line,
        forall|k1: int, k2: int|
            #![trigger step_token(t, rest).toks[k1], step_token(t, rest).toks[k2]]
            0 <= k1 <= k2 < step_token(t, rest).toks.len() ==> step_token(t, rest).toks[k1].line
                <= step_token(t, rest).toks[k2].line,
{
    let out = step_token(t, rest);
    assert forall|k: int| 0 <= k < out.toks.len() implies (#[trigger] out.toks[k]).kind
        != TokenType::EOF && line <= out.toks[k].line <= out.line by {
        if k > 0 {
            assert(out.toks[k] == rest.toks[k - 1]);
        }
    }
    assert forall|k1: int, k2: int|
        #![trigger out.toks[k1], out.toks[k2]]
        0 <= k1 <= k2 < out.toks.len() implies out.toks[k1].line <= out.toks[k2].line by {
        if k1 > 0 {
            assert(out.toks[k1] == rest.toks[k1 - 1]);
            assert(out.toks[k2] == rest.toks[k2 - 1]);
        } else if k2 > 0 {
            assert(out.toks[k2] == rest.toks[k2 - 1]);
        }
    }
}

proof fn lemma_scan_from_props(src: Seq<char>, i: int, line: int)
    requires
        0 <= i <= src.len(),
    ensures
        line <= scan_from(src, i, line).line,
        forall|k: int|
            0 <= k < scan_from(src, i, line).toks.len() ==> (#[trigger] scan_from(
                src,
                i,
                line,
            ).toks[k]).kind != TokenType::EOF,
        forall|k: int|
            0 <= k < scan_from(src, i, line).toks.len() ==> line <= (#[trigger] scan_from(
                src,
                i,
                line,
            ).toks[k]).line <= scan_from(src, i, line).line,
        forall|k1: int, k2: int|
            #![trigger scan_from(src, i, line).toks[k1], scan_from(src, i, line).toks[k2]]
            0 <= k1 <= k2 < scan_from(src, i, line).toks.len() ==> scan_from(
                src,
                i,
                line,
            ).toks[k1].line <= scan_from(src, i, line).toks[k2].line,
    decreases src.len() - i,
{
    if i < src.len() {
        let c = src[i];
        match punct_kind(c) {
            Some(k) => {
                lemma_scan_from_props(src, i + 1, line);
                lemma_props_cons(
                    (SpecToken { kind: k, lexeme: Seq::empty(), line }),
                    scan_from(src, i + 1, line),
                    line,
                    line,
                );
            },
            None => {
                match two_char_kind(c) {
                    Some(pair) => {
                        if i + 1 < src.len() && src[i + 1] == '=' {
                            lemma_scan_from_props(src, i + 2, line);
                            lemma_props_cons(
                                (SpecToken { kind: pair.1, lexeme: Seq::empty(), line }),
                                scan_from(src, i + 2, line),
                                line,
                                line,
                            );
                        } else {
                            lemma_scan_from_props(src, i + 1, line);
                            lemma_props_cons(
                                (SpecToken { kind: pair.0, lexeme: Seq::empty(), line }),
                                scan_from(src, i + 1, line),
                                line,
                                line,
                            );
                        }
                    },
                    None => {
                        if alpha_char(c) {
                            let j = ident_end(src, i + 1);
                            lemma_ident_end_bounds(src, i + 1);
                            lemma_scan_from_props(src, j, line);
                            let lex = src.subrange(i, j);
                            assert(keyword_kind(lex) != TokenType::EOF);
                            lemma_props_cons(
                                (SpecToken { kind: keyword_kind(lex), lexeme: lex, line }),
                                scan_from(src, j, line),
                                line,
                                line,
                            );
                        } else if digit_char(c) {
                            let j = number_end(src, i + 1);
                            lemma_number_end_bounds(src, i + 1);
                            lemma_scan_from_props(src, j, line);
                            lemma_props_cons(
                                (SpecToken {
                                    kind: TokenType::Number,
                                    lexeme: src.subrange(i, j),
                                    line,
                                }),
                                scan_from(src, j, line),
                                line,
                                line,
                            );
                        } else if c == '"' {
                            let j = string_end(src, i + 1);
                            lemma_string_end_bounds(src, i + 1);
                            lemma_newline_count_bounds(src, i + 1, j);
                            let line2 = line + newline_count(src, i + 1, j);
                            if j < src.len() {
                                lemma_scan_from_props(src, j + 1, line2);
                                lemma_props_cons(
                                    (SpecToken {
                                        kind: TokenType::String,
                                        lexeme: src.subrange(i, j + 1),
                                        line,
                                    }),
                                    scan_from(src, j + 1, line2),
                                    line,
                                    line2,
                                );
                            } else {
                                lemma_scan_from_props(src, j, line2);
                            }
                        } else if c == ' ' || c == '\t' || c == '\r' {
                            lemma_scan_from_props(src, i + 1, line);
                        } else if c == '\n' {
                            lemma_scan_from_props(src, i + 1, line + 1);
                        } else {
                            lemma_scan_from_props(src, i + 1, line);
                        }
                    },
                }
            },
        }
    }
}

/// Every scan's output ends with the end-of-input token: it is the last
/// element, it carries no source characters, and it is the only token of
/// its kind in the sequence.
pub proof fn lemma_scan_tokens_eof(src: Seq<char>)
    ensures
        scan_tokens(src).len() >= 1,
        scan_tokens(src).last().kind == TokenType::EOF,
        scan_tokens(src).last().lexeme == Seq::<char>::empty(),
        forall|k: int|
            0 <= k < scan_tokens(src).len() - 1 ==> (#[trigger] scan_tokens(src)[k]).kind
                != TokenType::EOF,
{
    lemma_scan_from_props(src, 0, 1);
}

/// Across one scan's output the `line` fields never decrease, and every
/// token stands on line 1 or later.
pub proof fn lemma_scan_tokens_lines_monotone(src: Seq<char>)
    ensures
        forall|k: int| 0 <= k < scan_tokens(src).len() ==> 1 <= (#[trigger] scan_tokens(src)[k]).line,
        forall|k1: int, k2: int|
            #![trigger scan_tokens(src)[k1], scan_tokens(src)[k2]]
            0 <= k1 <= k2 < scan_tokens(src).len() ==> scan_tokens(src)[k1].line <= scan_tokens(
                src,
            )[k2].line,
{
    lemma_scan_from_props(src, 0, 1);
    let out = scan_from(src, 0, 1);
    assert forall|k1: int, k2: int|
        #![trigger scan_tokens(src)[k1], scan_tokens(src)[k2]]
        0 <= k1 <= k2 < scan_tokens(src).len() implies scan_tokens(src)[k1].line <= scan_tokens(
        src,
    )[k2].line by {
        if k2 < out.toks.len() {
            assert(scan_tokens(src)[k1] == out.toks[k1]);
            assert(scan_tokens(src)[k2] == out.toks[k2]);
        } else if k1 < out.toks.len() {
            assert(scan_tokens(src)[k1] == out.toks[k1]);
        }
    }
}


/// The characters of `source`, in order, as a fresh buffer.
fn chars_of(source: &String) -> (r: Vec<char>)
    ensures
        r@ == source@,
{
    let s = source.as_str();
    let n = s.unicode_len();
    let mut r: Vec<char> = Vec::new();
    let mut k: usize = 0;
    while k < n
        invariant
            k <= n,
            n == s@.len(),
            s@ == source@,
            r@ == s@.subrange(0, k as int),
        decreases n - k,
    {
        let c = s.get_char(k);
        r.push(c);
        proof {
            assert(r@ =~= s@.subrange(0, k as int + 1));
        }
        k = k + 1;
    }
    proof {
        assert(r@ =~= source@);
    }
    r
}

/// Scan `source` in one pass and hand back its tokens together with the
/// lexical errors that were recovered from, both in source order.  The token
/// sequence always ends with the end-of-input token; an unrecognized
/// character becomes an error entry and no token.
pub fn build_tokenizer_with_errors(source: &String) -> (r: (Vec<Token>, Vec<LexError>))
    requires
        source@.len() < u32::MAX,
    ensures
        toks_of(r.0@) == scan_tokens(source@),
        errs_of(r.1@) == scan_lex_errors(source@),
{
    let chars = chars_of(source);
    let mut tk = Tokenizer {
        tokens: Vec::new(),
        errors: Vec::new(),
        source: chars,
        start: 0,
        current: 0,
        line: 1,
    };
    tk.scan();
    (tk.tokens, tk.errors)
}

/// Scan `source` in one pass into its token sequence, closed by the
/// end-of-input token.  Recovered lexical errors are dropped here; callers
/// that report them use [`build_tokenizer_with_errors`].
pub fn build_tokenizer(source: &String) -> (tokens: Vec<Token>)
    requires
        source@.len() < u32::MAX,
    ensures
        toks_of(tokens@) == scan_tokens(source@),
{
    let r = build_tokenizer_with_errors(source);
    r.0
}



} // verus!
