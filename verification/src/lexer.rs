//! Lexer: source text to tokens (with spans) plus every lexical error.
//!
//! Scanning never aborts: a bad lexeme becomes a `TokenKind::Invalid`
//! token and an entry in `LexOutput::errors`, so one run reports every
//! lexical error. Spans hold byte offsets into the source and the line and
//! column (both counted from 1, in characters) where the lexeme starts.
//!
//! Which characters are alphabetic or alphanumeric is Unicode's to say:
//! `lex_classified` takes it as flags, one per character, and `lex` asks
//! `char::is_alphabetic` and `char::is_alphanumeric` for them.
use vstd::prelude::*;
use vstd::std_specs::iter::IteratorSpec;
use vstd::utf8::{encode_scalar, encode_utf8};

use crate::builtins::same_text;
use crate::text::{digit_char, nat_digits};

verus! {

broadcast use vstd::string::group_string_axioms;

// ---------------------------------------------------------------------
// Tokens and errors
// ---------------------------------------------------------------------

#[derive(Debug, Clone, PartialEq)]
pub enum TokenKind {
    Keyword,
    Delimiter,
    Identifier,
    Operator,
    Literal(Literal),
    Invalid,
}

#[derive(Debug, Clone, Copy, PartialEq, Eq, Structural)]
pub struct Span {
    pub start: usize,
    pub end: usize,
    pub line: u32,
    pub column: u32,
}

#[derive(Debug, Clone, PartialEq)]
pub enum Literal {
    Int(i64),
    /// A decimal literal with a fractional part, as written (digits, `.`,
    /// digits).
    Float(String),
    Str(String),
    Char(char),
    Bool(bool),
}

#[derive(Debug, Clone, PartialEq)]
pub struct Token {
    pub kind: TokenKind,
    pub lexeme: String,
    pub span: Span,
}

#[derive(Debug, Clone, Copy, PartialEq, Eq, Structural)]
pub enum LexErrorKind {
    UnterminatedString,
    UnterminatedChar,
    EmptyCharLiteral,
    OverlongCharLiteral,
    InvalidEscape(char),
    UnexpectedChar(char),
    IntegerOverflow,
    FloatParseError,
}

#[derive(Debug, Clone, Copy, PartialEq, Eq, Structural)]
pub struct LexError {
    pub kind: LexErrorKind,
    pub span: Span,
}

impl LexError {
    fn new(kind: LexErrorKind, span: Span) -> (r: Self)
        ensures
            r == (LexError { kind, span }),
    {
        Self { kind, span }
    }
}

pub struct LexOutput {
    pub tokens: Vec<Token>,
    pub errors: Vec<LexError>,
}

/// A literal with its text as a character sequence.
pub enum LiteralView {
    Int(i64),
    Float(Seq<char>),
    Str(Seq<char>),
    Char(char),
    Bool(bool),
}

pub enum TokenKindView {
    Keyword,
    Delimiter,
    Identifier,
    Operator,
    Literal(LiteralView),
    Invalid,
}

pub struct TokenView {
    pub kind: TokenKindView,
    pub lexeme: Seq<char>,
    pub span: Span,
}

impl View for Literal {
    type V = LiteralView;

    open spec fn view(&self) -> LiteralView {
        match self {
            Literal::Int(n) => LiteralView::Int(*n),
            Literal::Float(t) => LiteralView::Float(t@),
            Literal::Str(t) => LiteralView::Str(t@),
            Literal::Char(c) => LiteralView::Char(*c),
            Literal::Bool(b) => LiteralView::Bool(*b),
        }
    }
}

impl View for TokenKind {
    type V = TokenKindView;

    open spec fn view(&self) -> TokenKindView {
        match self {
            TokenKind::Keyword => TokenKindView::Keyword,
            TokenKind::Delimiter => TokenKindView::Delimiter,
            TokenKind::Identifier => TokenKindView::Identifier,
            TokenKind::Operator => TokenKindView::Operator,
            TokenKind::Literal(l) => TokenKindView::Literal(l@),
            TokenKind::Invalid => TokenKindView::Invalid,
        }
    }
}

impl View for Token {
    type V = TokenView;

    open spec fn view(&self) -> TokenView {
        TokenView { kind: self.kind@, lexeme: self.lexeme@, span: self.span }
    }
}

impl View for LexOutput {
    type V = (Seq<TokenView>, Seq<LexError>);

    open spec fn view(&self) -> (Seq<TokenView>, Seq<LexError>) {
        (self.tokens@.map_values(|t: Token| t@), self.errors@)
    }
}

// ---------------------------------------------------------------------
// Character classes
// ---------------------------------------------------------------------

/// Whether `c` has the Unicode Alphabetic property (`char::is_alphabetic`).
pub uninterp spec fn char_alphabetic(c: char) -> bool;

/// Whether `c` is Alphabetic or Numeric (`char::is_alphanumeric`).
pub uninterp spec fn char_alphanumeric(c: char) -> bool;

/// Whether `c` has the Unicode White_Space property, as `char::is_whitespace`
/// tests: tab to carriage return, space, next line, no-break space, ogham
/// space mark, the spaces from en quad to hair space, line and paragraph
/// separators, narrow no-break space, medium mathematical space and
/// ideographic space.
pub open spec fn char_whitespace(c: char) -> bool {
    let v = c as u32;
    ||| 0x9 <= v <= 0xD
    ||| v == 0x20
    ||| v == 0x85
    ||| v == 0xA0
    ||| v == 0x1680
    ||| 0x2000 <= v <= 0x200A
    ||| v == 0x2028
    ||| v == 0x2029
    ||| v == 0x202F
    ||| v == 0x205F
    ||| v == 0x3000
}

/// Calls `char::is_alphabetic`; its result is named `char_alphabetic`.
#[verifier::external_body]
fn char_is_alphabetic(c: char) -> (r: bool)
    ensures
        r == char_alphabetic(c),
{
    c.is_alphabetic()
}

/// Calls `char::is_alphanumeric`; its result is named `char_alphanumeric`,
/// and, as its documentation says (alphabetic or numeric), it holds of
/// every alphabetic character.
#[verifier::external_body]
fn char_is_alphanumeric(c: char) -> (r: bool)
    ensures
        r == char_alphanumeric(c),
        char_alphabetic(c) ==> r,
{
    c.is_alphanumeric()
}

/// Whether `c` is white space (`char_whitespace`).
pub fn char_is_whitespace(c: char) -> (r: bool)
    ensures
        r == char_whitespace(c),
{
    let v = c as u32;
    (0x9 <= v && v <= 0xD) || v == 0x20 || v == 0x85 || v == 0xA0 || v == 0x1680 || (0x2000 <= v
        && v <= 0x200A) || v == 0x2028 || v == 0x2029 || v == 0x202F || v == 0x205F || v == 0x3000
}

pub open spec fn ascii_digit(c: char) -> bool {
    '0' <= c <= '9'
}

/// What the lexer is told of each character that it does not classify
/// itself: `alphabetic[i]` and `alphanumeric[i]` are for the `i`th.
pub struct CharFlags {
    pub alphabetic: Seq<bool>,
    pub alphanumeric: Seq<bool>,
}

/// The flags of a source text as `char::is_alphabetic` and
/// `char::is_alphanumeric` give them.
pub open spec fn std_flags(cs: Seq<char>) -> CharFlags {
    CharFlags {
        alphabetic: cs.map_values(|c: char| char_alphabetic(c)),
        alphanumeric: cs.map_values(|c: char| char_alphanumeric(c)),
    }
}

/// The `i`th character can start an identifier: it is alphabetic or `_`.
pub open spec fn ident_start(k: CharFlags, cs: Seq<char>, i: int) -> bool {
    (0 <= i < k.alphabetic.len() && k.alphabetic[i]) || cs[i] == '_'
}

/// The `i`th character can continue an identifier: it is alphanumeric or `_`.
pub open spec fn ident_cont(k: CharFlags, cs: Seq<char>, i: int) -> bool {
    (0 <= i < k.alphanumeric.len() && k.alphanumeric[i]) || cs[i] == '_'
}

/// One of `+-*/=<>!&|^%`.
pub open spec fn operator_char(c: char) -> bool {
    c == '+' || c == '-' || c == '*' || c == '/' || c == '=' || c == '<' || c == '>' || c == '!'
        || c == '&' || c == '|' || c == '^' || c == '%'
}

/// One of `(){}[];,:.`.
pub open spec fn delimiter_char(c: char) -> bool {
    c == '(' || c == ')' || c == '{' || c == '}' || c == '[' || c == ']' || c == ';' || c == ','
        || c == ':' || c == '.'
}

/// One of `==`, `!=`, `<=`, `>=`, `&&`, `||`, `->`.
pub open spec fn two_char_operator(a: char, b: char) -> bool {
    (a == '=' && b == '=') || (a == '!' && b == '=') || (a == '<' && b == '=') || (a == '>' && b
        == '=') || (a == '&' && b == '&') || (a == '|' && b == '|') || (a == '-' && b == '>')
}

pub open spec fn keyword(s: Seq<char>) -> bool {
    s == "fn"@ || s == "if"@ || s == "else"@ || s == "struct"@ || s == "enum"@ || s == "let"@ || s
        == "mut"@ || s == "return"@ || s == "loop"@ || s == "while"@ || s == "for"@ || s == "in"@
        || s == "match"@ || s == "use"@ || s == "pub"@ || s == "mod"@ || s == "impl"@ || s
        == "self"@ || s == "Self"@ || s == "type"@ || s == "where"@
}

/// The character that `\c` stands for, if `c` names an escape.
pub open spec fn unescaped(c: char) -> Option<char> {
    if c == 'n' {
        Some('\n')
    } else if c == 't' {
        Some('\t')
    } else if c == 'r' {
        Some('\r')
    } else if c == '0' {
        Some('\0')
    } else if c == '\\' {
        Some('\\')
    } else if c == '"' {
        Some('"')
    } else if c == '\'' {
        Some('\'')
    } else {
        None
    }
}

// ---------------------------------------------------------------------
// Positions
// ---------------------------------------------------------------------

/// The byte offset of the `i`th character.
pub open spec fn byte_offset(cs: Seq<char>, i: int) -> nat {
    encode_utf8(cs.take(i)).len()
}

/// The line of the `i`th character, counting from 1.
pub open spec fn line_at(cs: Seq<char>, i: int) -> nat
    decreases i,
{
    if i <= 0 {
        1
    } else if cs[i - 1] == '\n' {
        line_at(cs, i - 1) + 1
    } else {
        line_at(cs, i - 1)
    }
}

/// The column of the `i`th character, counting from 1.
pub open spec fn column_at(cs: Seq<char>, i: int) -> nat
    decreases i,
{
    if i <= 0 {
        1
    } else if cs[i - 1] == '\n' {
        1
    } else {
        column_at(cs, i - 1) + 1
    }
}

/// The span of the characters `s..e`.
pub open spec fn span_of(cs: Seq<char>, s: int, e: int) -> Span {
    Span {
        start: byte_offset(cs, s) as usize,
        end: byte_offset(cs, e) as usize,
        line: line_at(cs, s) as u32,
        column: column_at(cs, s) as u32,
    }
}

// ---------------------------------------------------------------------
// What each lexeme scans to
// ---------------------------------------------------------------------

/// An error of a lexeme: its kind and the end of its span.
pub struct ErrorAt {
    pub kind: LexErrorKind,
    pub end: int,
}

/// The kind of a scanned lexeme, where it ends, and its errors, each given
/// by its kind and the end of its span (every error span starts where the
/// lexeme starts).
pub struct Scanned {
    pub kind: TokenKindView,
    pub end: int,
    pub errors: Seq<ErrorAt>,
}

/// The end of the run of whitespace at `i`.
pub open spec fn whitespace_end(cs: Seq<char>, i: int) -> int
    decreases cs.len() - i,
{
    if 0 <= i < cs.len() && char_whitespace(cs[i]) {
        whitespace_end(cs, i + 1)
    } else {
        i
    }
}

/// The position of the first newline at or after `i` (or the end).
pub open spec fn line_end(cs: Seq<char>, i: int) -> int
    decreases cs.len() - i,
{
    if 0 <= i < cs.len() && cs[i] != '\n' {
        line_end(cs, i + 1)
    } else {
        i
    }
}

/// The position of the first `'` at or after `i` (or the end).
pub open spec fn quote_end(cs: Seq<char>, i: int) -> int
    decreases cs.len() - i,
{
    if 0 <= i < cs.len() && cs[i] != '\'' {
        quote_end(cs, i + 1)
    } else {
        i
    }
}

/// The end of the identifier characters at `i`.
pub open spec fn ident_end(k: CharFlags, cs: Seq<char>, i: int) -> int
    decreases cs.len() - i,
{
    if 0 <= i < cs.len() && ident_cont(k, cs, i) {
        ident_end(k, cs, i + 1)
    } else {
        i
    }
}

pub proof fn lemma_run_ends(cs: Seq<char>, i: int)
    requires
        0 <= i <= cs.len(),
    ensures
        i <= whitespace_end(cs, i) <= cs.len(),
        i <= line_end(cs, i) <= cs.len(),
        i <= quote_end(cs, i) <= cs.len(),
        quote_end(cs, i) < cs.len() ==> cs[quote_end(cs, i)] == '\'',
        line_end(cs, i) < cs.len() ==> cs[line_end(cs, i)] == '\n',
    decreases cs.len() - i,
{
    if i < cs.len() {
        lemma_run_ends(cs, i + 1);
    }
}

pub proof fn lemma_ident_end(k: CharFlags, cs: Seq<char>, i: int)
    requires
        0 <= i <= cs.len(),
    ensures
        i <= ident_end(k, cs, i) <= cs.len(),
    decreases cs.len() - i,
{
    if i < cs.len() {
        lemma_ident_end(k, cs, i + 1);
    }
}

/// Where whitespace and `//` comments that start at `i` end.
pub open spec fn trivia_end(cs: Seq<char>, i: int) -> int
    decreases cs.len() - i,
{
    if i < 0 || i > cs.len() {
        i
    } else {
        let j = whitespace_end(cs, i);
        if j + 1 < cs.len() && cs[j] == '/' && cs[j + 1] == '/' {
            proof {
                lemma_run_ends(cs, i);
                lemma_run_ends(cs, j + 1);
            }
            trivia_end(cs, line_end(cs, j + 1))
        } else {
            j
        }
    }
}

pub proof fn lemma_trivia_end(cs: Seq<char>, i: int)
    requires
        0 <= i <= cs.len(),
    ensures
        i <= trivia_end(cs, i) <= cs.len(),
    decreases cs.len() - i,
{
    lemma_run_ends(cs, i);
    let j = whitespace_end(cs, i);
    if j + 1 < cs.len() && cs[j] == '/' && cs[j + 1] == '/' {
        lemma_run_ends(cs, j + 1);
        lemma_trivia_end(cs, line_end(cs, j + 1));
    }
}

/// The body of a string literal from `i` (just after the opening quote or a
/// previous character): whether a closing quote was found, the characters
/// of its value, its bad escapes, and where it ends.
pub struct StringBody {
    pub closed: bool,
    pub value: Seq<char>,
    pub bad: Seq<ErrorAt>,
    pub end: int,
}

pub open spec fn string_body(cs: Seq<char>, i: int) -> StringBody
    decreases cs.len() - i,
{
    if i < 0 || i >= cs.len() {
        StringBody { closed: false, value: seq![], bad: seq![], end: cs.len() as int }
    } else if cs[i] == '"' {
        StringBody { closed: true, value: seq![], bad: seq![], end: i + 1 }
    } else if cs[i] == '\\' {
        if i + 1 >= cs.len() {
            StringBody { closed: false, value: seq![], bad: seq![], end: cs.len() as int }
        } else {
            let c = cs[i + 1];
            let rest = string_body(cs, i + 2);
            match unescaped(c) {
                Some(u) => StringBody {
                    closed: rest.closed,
                    value: seq![u] + rest.value,
                    bad: rest.bad,
                    end: rest.end,
                },
                None => StringBody {
                    closed: rest.closed,
                    value: seq![c] + rest.value,
                    bad: seq![ErrorAt { kind: LexErrorKind::InvalidEscape(c), end: i + 2 }] + rest.bad,
                    end: rest.end,
                },
            }
        }
    } else {
        let rest = string_body(cs, i + 1);
        StringBody {
            closed: rest.closed,
            value: seq![cs[i]] + rest.value,
            bad: rest.bad,
            end: rest.end,
        }
    }
}

proof fn lemma_string_body_bad_escape(cs: Seq<char>, s: int, p: int, c: char)
    requires
        0 <= p,
        p + 1 < cs.len(),
        cs[p] == '\\',
        cs[p + 1] == c,
        unescaped(c) is None,
    ensures
        errors_at(cs, s, string_body(cs, p).bad) =~= seq![
            LexError { kind: LexErrorKind::InvalidEscape(c), span: span_of(cs, s, p + 2) },
        ] + errors_at(cs, s, string_body(cs, p + 2).bad),
{
    let x = ErrorAt { kind: LexErrorKind::InvalidEscape(c), end: p + 2 };
    assert(string_body(cs, p).bad == seq![x] + string_body(cs, p + 2).bad);
}

/// A string literal starting (with its `"`) at `s`. An unterminated string
/// reports only that, whatever bad escapes it held.
pub open spec fn scan_string_spec(cs: Seq<char>, s: int) -> Scanned {
    let b = string_body(cs, s + 1);
    if !b.closed {
        Scanned {
            kind: TokenKindView::Invalid,
            end: b.end,
            errors: seq![ErrorAt { kind: LexErrorKind::UnterminatedString, end: b.end }],
        }
    } else {
        Scanned { kind: TokenKindView::Literal(LiteralView::Str(b.value)), end: b.end, errors: b.bad }
    }
}

/// The content of a character literal whose opening `'` is just before
/// `p`: the character, an error, and the position after it.
pub open spec fn char_content(cs: Seq<char>, p: int) -> (Option<char>, Option<LexErrorKind>, int) {
    if p >= cs.len() {
        (None, Some(LexErrorKind::UnterminatedChar), p)
    } else if cs[p] == '\'' {
        (None, Some(LexErrorKind::EmptyCharLiteral), p + 1)
    } else if cs[p] == '\\' {
        if p + 1 >= cs.len() {
            (None, Some(LexErrorKind::UnterminatedChar), p + 1)
        } else {
            let c = cs[p + 1];
            match unescaped(c) {
                Some(u) => (Some(u), None, p + 2),
                None => (Some(c), Some(LexErrorKind::InvalidEscape(c)), p + 2),
            }
        }
    } else {
        (Some(cs[p]), None, p + 1)
    }
}

/// After the content of a character literal (which ended at `p` with
/// error `err`): the literal's error and where it ends. Extra characters
/// make it overlong, up to and including the next `'`.
pub open spec fn char_close(cs: Seq<char>, err: Option<LexErrorKind>, p: int) -> (Option<
    LexErrorKind,
>, int) {
    if err is Some {
        (err, p)
    } else if p >= cs.len() {
        (Some(LexErrorKind::UnterminatedChar), p)
    } else if cs[p] == '\'' {
        (None, p + 1)
    } else {
        let k = quote_end(cs, p);
        (Some(LexErrorKind::OverlongCharLiteral), if k < cs.len() { k + 1 } else { k })
    }
}

/// `scan_char_spec` from the parts it is built of.
proof fn lemma_scan_char(
    cs: Seq<char>,
    s: int,
    content: Option<char>,
    err: Option<LexErrorKind>,
    p: int,
    err2: Option<LexErrorKind>,
    q: int,
)
    requires
        (content, err, p) == char_content(cs, s + 1),
        (err2, q) == char_close(cs, err, p),
    ensures
        scan_char_spec(cs, s) == (match (content, err2) {
            (Some(c), None) => Scanned {
                kind: TokenKindView::Literal(LiteralView::Char(c)),
                end: q,
                errors: seq![],
            },
            (_, Some(k)) => Scanned {
                kind: TokenKindView::Invalid,
                end: q,
                errors: seq![ErrorAt { kind: k, end: q }],
            },
            (None, None) => Scanned {
                kind: TokenKindView::Invalid,
                end: q,
                errors: seq![ErrorAt { kind: LexErrorKind::UnterminatedChar, end: q }],
            },
        }),
{
}

/// A character literal starting (with its `'`) at `s`.
pub open spec fn scan_char_spec(cs: Seq<char>, s: int) -> Scanned {
    let (content, err, p) = char_content(cs, s + 1);
    let (err2, q) = char_close(cs, err, p);
    match (content, err2) {
        (Some(c), None) => Scanned {
            kind: TokenKindView::Literal(LiteralView::Char(c)),
            end: q,
            errors: seq![],
        },
        (_, Some(k)) => Scanned { kind: TokenKindView::Invalid, end: q, errors: seq![ErrorAt { kind: k, end: q }] },
        (None, None) => Scanned {
            kind: TokenKindView::Invalid,
            end: q,
            errors: seq![ErrorAt { kind: LexErrorKind::UnterminatedChar, end: q }],
        },
    }
}

/// The end of a number from `i`: digits, with at most one `.` that is
/// directly followed by a digit; and whether it took a `.`.
pub open spec fn number_end(cs: Seq<char>, i: int, seen_dot: bool) -> (int, bool)
    decreases cs.len() - i,
{
    if 0 <= i < cs.len() && ascii_digit(cs[i]) {
        number_end(cs, i + 1, seen_dot)
    } else if 0 <= i && i + 1 < cs.len() && cs[i] == '.' && !seen_dot && ascii_digit(cs[i + 1]) {
        number_end(cs, i + 1, true)
    } else {
        (i, seen_dot)
    }
}

/// The value of a sequence of decimal digits.
pub open spec fn digits_value(ds: Seq<char>) -> nat
    decreases ds.len(),
{
    if ds.len() == 0 {
        0
    } else {
        digits_value(ds.drop_last()) * 10 + ((ds.last() as int) - ('0' as int)) as nat
    }
}

/// A number starting (with a digit) at `s`.
pub open spec fn scan_number_spec(cs: Seq<char>, s: int) -> Scanned {
    let (e, is_float) = number_end(cs, s, false);
    if is_float {
        Scanned {
            kind: TokenKindView::Literal(LiteralView::Float(cs.subrange(s, e))),
            end: e,
            errors: seq![],
        }
    } else if digits_value(cs.subrange(s, e)) <= i64::MAX {
        Scanned {
            kind: TokenKindView::Literal(LiteralView::Int(digits_value(cs.subrange(s, e)) as i64)),
            end: e,
            errors: seq![],
        }
    } else {
        Scanned {
            kind: TokenKindView::Invalid,
            end: e,
            errors: seq![ErrorAt { kind: LexErrorKind::IntegerOverflow, end: e }],
        }
    }
}

/// An identifier, keyword or boolean literal starting at `s`.
/// (The first character is an identifier start; the rest are identifier
/// characters.)
pub open spec fn scan_ident_spec(k: CharFlags, cs: Seq<char>, s: int) -> Scanned {
    let e = ident_end(k, cs, s + 1);
    let text = cs.subrange(s, e);
    let kind = if text == "true"@ {
        TokenKindView::Literal(LiteralView::Bool(true))
    } else if text == "false"@ {
        TokenKindView::Literal(LiteralView::Bool(false))
    } else if keyword(text) {
        TokenKindView::Keyword
    } else {
        TokenKindView::Identifier
    };
    Scanned { kind, end: e, errors: seq![] }
}

/// An operator starting at `s`: two characters when they form one of the
/// two-character operators, else one.
pub open spec fn scan_operator_spec(cs: Seq<char>, s: int) -> Scanned {
    let e = if s + 1 < cs.len() && two_char_operator(cs[s], cs[s + 1]) {
        s + 2
    } else {
        s + 1
    };
    Scanned { kind: TokenKindView::Operator, end: e, errors: seq![] }
}

/// The lexeme that starts at `s`, chosen by its first character.
pub open spec fn scan_token(k: CharFlags, cs: Seq<char>, s: int) -> Scanned {
    let c = cs[s];
    if c == '"' {
        scan_string_spec(cs, s)
    } else if c == '\'' {
        scan_char_spec(cs, s)
    } else if ascii_digit(c) {
        scan_number_spec(cs, s)
    } else if ident_start(k, cs, s) {
        scan_ident_spec(k, cs, s)
    } else if operator_char(c) {
        scan_operator_spec(cs, s)
    } else if delimiter_char(c) {
        Scanned { kind: TokenKindView::Delimiter, end: s + 1, errors: seq![] }
    } else {
        Scanned {
            kind: TokenKindView::Invalid,
            end: s + 1,
            errors: seq![ErrorAt { kind: LexErrorKind::UnexpectedChar(c), end: s + 1 }],
        }
    }
}

pub proof fn lemma_string_body(cs: Seq<char>, i: int)
    requires
        0 <= i <= cs.len(),
    ensures
        i <= string_body(cs, i).end <= cs.len(),
        string_body(cs, i).closed ==> string_body(cs, i).end > i,
    decreases cs.len() - i,
{
    if i < cs.len() && cs[i] != '"' {
        if cs[i] == '\\' {
            if i + 1 < cs.len() {
                lemma_string_body(cs, i + 2);
            }
        } else {
            lemma_string_body(cs, i + 1);
        }
    }
}

pub proof fn lemma_number_end(cs: Seq<char>, i: int, seen_dot: bool)
    requires
        0 <= i <= cs.len(),
    ensures
        i <= number_end(cs, i, seen_dot).0 <= cs.len(),
    decreases cs.len() - i,
{
    if i < cs.len() && ascii_digit(cs[i]) {
        lemma_number_end(cs, i + 1, seen_dot);
    } else if i + 1 < cs.len() && cs[i] == '.' && !seen_dot && ascii_digit(cs[i + 1]) {
        lemma_number_end(cs, i + 1, true);
    }
}

/// Every lexeme takes at least one character, and no more than there are.
pub proof fn lemma_scan_progress(k: CharFlags, cs: Seq<char>, s: int)
    requires
        0 <= s < cs.len(),
    ensures
        s < scan_token(k, cs, s).end <= cs.len(),
{
    lemma_string_body(cs, s + 1);
    lemma_number_end(cs, s + 1, false);
    lemma_run_ends(cs, s + 1);
    lemma_ident_end(k, cs, s + 1);
    if ascii_digit(cs[s]) {
        assert(number_end(cs, s, false) == number_end(cs, s + 1, false));
    }
    if cs[s] == '\'' {
        let (content, err, p) = char_content(cs, s + 1);
        assert(s + 1 <= p <= cs.len());
        if p < cs.len() {
            lemma_run_ends(cs, p);
        }
    }
}

/// A token of kind `kind` over the characters `s..e`.
pub open spec fn token_at(cs: Seq<char>, kind: TokenKindView, s: int, e: int) -> TokenView {
    TokenView { kind, lexeme: cs.subrange(s, e), span: span_of(cs, s, e) }
}

/// The errors of a lexeme starting at `s`.
pub open spec fn errors_at(cs: Seq<char>, s: int, errs: Seq<ErrorAt>) -> Seq<LexError> {
    errs.map_values(|p: ErrorAt| LexError { kind: p.kind, span: span_of(cs, s, p.end) })
}

/// The tokens and errors of the source from position `i` on.
pub open spec fn lex_from(k: CharFlags, cs: Seq<char>, i: int) -> (Seq<TokenView>, Seq<LexError>)
    decreases cs.len() - i,
{
    if i < 0 || i > cs.len() {
        (seq![], seq![])
    } else {
        let j = trivia_end(cs, i);
        if j >= cs.len() {
            (seq![], seq![])
        } else {
            proof {
                lemma_trivia_end(cs, i);
                lemma_scan_progress(k, cs, j);
            }
            let sc = scan_token(k, cs, j);
            let rest = lex_from(k, cs, sc.end);
            (
                seq![token_at(cs, sc.kind, j, sc.end)] + rest.0,
                errors_at(cs, j, sc.errors) + rest.1,
            )
        }
    }
}

/// The tokens and errors of a whole source text, given the flags of its
/// characters.
pub open spec fn lex_with(k: CharFlags, cs: Seq<char>) -> (Seq<TokenView>, Seq<LexError>) {
    lex_from(k, cs, 0)
}

/// The tokens and errors of a whole source text.
pub open spec fn lex_spec(cs: Seq<char>) -> (Seq<TokenView>, Seq<LexError>) {
    lex_with(std_flags(cs), cs)
}

// ---------------------------------------------------------------------
// Facts about positions
// ---------------------------------------------------------------------

proof fn lemma_encode_push(s: Seq<char>, c: char)
    ensures
        encode_utf8(s.push(c)) =~= encode_utf8(s) + encode_scalar(c as u32),
    decreases s.len(),
{
    let t = s.push(c);
    if s.len() > 0 {
        assert(t.drop_first() =~= s.drop_first().push(c));
        lemma_encode_push(s.drop_first(), c);
        assert(t[0] == s[0]);
        assert(encode_utf8(t) == encode_scalar(s[0] as u32) + encode_utf8(t.drop_first()));
        assert(encode_utf8(s) == encode_scalar(s[0] as u32) + encode_utf8(s.drop_first()));
    } else {
        assert(t.drop_first() =~= Seq::<char>::empty());
        assert(encode_utf8(t) == encode_scalar(c as u32) + encode_utf8(t.drop_first()));
        assert(encode_utf8(s) =~= Seq::<u8>::empty());
    }
}

proof fn lemma_byte_offset_step(cs: Seq<char>, i: int)
    requires
        0 <= i < cs.len(),
    ensures
        byte_offset(cs, i + 1) == byte_offset(cs, i) + encode_scalar(cs[i] as u32).len(),
{
    assert(cs.take(i + 1) =~= cs.take(i).push(cs[i]));
    lemma_encode_push(cs.take(i), cs[i]);
}

proof fn lemma_byte_offset_mono(cs: Seq<char>, i: int, j: int)
    requires
        0 <= i <= j <= cs.len(),
    ensures
        byte_offset(cs, i) <= byte_offset(cs, j),
    decreases j - i,
{
    if i < j {
        lemma_byte_offset_step(cs, j - 1);
        lemma_byte_offset_mono(cs, i, j - 1);
    }
}

proof fn lemma_line_column_bound(cs: Seq<char>, i: int)
    requires
        0 <= i <= cs.len(),
    ensures
        line_at(cs, i) <= i + 1,
        column_at(cs, i) <= i + 1,
    decreases i,
{
    if i > 0 {
        lemma_line_column_bound(cs, i - 1);
    }
}

proof fn lemma_digits_value_prefix(ds: Seq<char>, k: int)
    requires
        0 <= k <= ds.len(),
    ensures
        digits_value(ds.take(k)) <= digits_value(ds),
    decreases ds.len() - k,
{
    if k < ds.len() {
        assert(ds.take(k + 1).drop_last() =~= ds.take(k));
        lemma_digits_value_prefix(ds, k + 1);
    } else {
        assert(ds.take(k) =~= ds);
    }
}

/// The number of bytes in the UTF-8 encoding of `c`.
fn char_width(c: char) -> (w: usize)
    ensures
        w == encode_scalar(c as u32).len(),
{
    let v = c as u32;
    if v < 0x80 {
        1
    } else if v < 0x800 {
        2
    } else if v < 0x10000 {
        3
    } else {
        4
    }
}

// ---------------------------------------------------------------------
// Character helpers
// ---------------------------------------------------------------------

fn is_ascii_digit(c: char) -> (r: bool)
    ensures
        r == ascii_digit(c),
{
    '0' <= c && c <= '9'
}

fn is_operator(c: char) -> (r: bool)
    ensures
        r == operator_char(c),
{
    c == '+' || c == '-' || c == '*' || c == '/' || c == '=' || c == '<' || c == '>' || c == '!'
        || c == '&' || c == '|' || c == '^' || c == '%'
}

fn is_delimiter(c: char) -> (r: bool)
    ensures
        r == delimiter_char(c),
{
    c == '(' || c == ')' || c == '{' || c == '}' || c == '[' || c == ']' || c == ';' || c == ','
        || c == ':' || c == '.'
}

fn is_two_char_operator(a: char, b: char) -> (r: bool)
    ensures
        r == two_char_operator(a, b),
{
    (a == '=' && b == '=') || (a == '!' && b == '=') || (a == '<' && b == '=') || (a == '>' && b
        == '=') || (a == '&' && b == '&') || (a == '|' && b == '|') || (a == '-' && b == '>')
}

fn is_keyword(s: &str) -> (r: bool)
    ensures
        r == keyword(s@),
{
    same_text(s, "fn") || same_text(s, "if") || same_text(s, "else") || same_text(s, "struct")
        || same_text(s, "enum") || same_text(s, "let") || same_text(s, "mut") || same_text(
        s,
        "return",
    ) || same_text(s, "loop") || same_text(s, "while") || same_text(s, "for") || same_text(
        s,
        "in",
    ) || same_text(s, "match") || same_text(s, "use") || same_text(s, "pub") || same_text(
        s,
        "mod",
    ) || same_text(s, "impl") || same_text(s, "self") || same_text(s, "Self") || same_text(
        s,
        "type",
    ) || same_text(s, "where")
}

/// The character that `\c` stands for. Unicode escapes (`\u{..}`) are not
/// supported.
fn unescape(c: char) -> (r: Result<char, ()>)
    ensures
        r matches Ok(u) ==> unescaped(c) == Some(u),
        r is Err ==> unescaped(c) is None,
{
    match c {
        'n' => Ok('\n'),
        't' => Ok('\t'),
        'r' => Ok('\r'),
        '0' => Ok('\0'),
        '\\' => Ok('\\'),
        '"' => Ok('"'),
        '\'' => Ok('\''),
        _ => Err(()),
    }
}

/// The characters of `s`, in order.
fn source_chars(s: &str) -> (v: Vec<char>)
    ensures
        v@ == s@,
{
    let mut it = s.chars();
    let mut v: Vec<char> = Vec::new();
    loop
        invariant
            v@ + it.remaining() == s@,
            it.obeys_prophetic_iter_laws(),
            it.decrease() is Some,
        ensures
            v@ == s@,
        decreases it.decrease()->0,
    {
        match it.next() {
            Some(c) => {
                v.push(c);
            },
            None => {
                assert(v@ + it.remaining() =~= v@);
                break;
            },
        }
    }
    v
}

// ---------------------------------------------------------------------
// The scanner
// ---------------------------------------------------------------------

/// A character class that `advance_while` can skip.
#[derive(Clone, Copy)]
enum CharClass {
    Whitespace,
    IdentCont,
    NotNewline,
    NotQuote,
}

spec fn class_end(fl: CharFlags, class: CharClass, cs: Seq<char>, i: int) -> int {
    match class {
        CharClass::Whitespace => whitespace_end(cs, i),
        CharClass::IdentCont => ident_end(fl, cs, i),
        CharClass::NotNewline => line_end(cs, i),
        CharClass::NotQuote => quote_end(cs, i),
    }
}

spec fn class_holds(fl: CharFlags, class: CharClass, cs: Seq<char>, i: int) -> bool {
    match class {
        CharClass::Whitespace => char_whitespace(cs[i]),
        CharClass::IdentCont => ident_cont(fl, cs, i),
        CharClass::NotNewline => cs[i] != '\n',
        CharClass::NotQuote => cs[i] != '\'',
    }
}

/// Where a lexeme starts: its character index, byte offset, line and column.
#[derive(Clone, Copy)]
struct Mark {
    index: usize,
    offset: usize,
    line: u32,
    column: u32,
}

struct Lexer {
    chars: Vec<char>,
    /// Whether each character is alphabetic, and whether alphanumeric.
    alphabetic: Vec<bool>,
    alphanumeric: Vec<bool>,
    /// Index of the next character.
    pos: usize,
    /// Byte offset of the next character.
    offset: usize,
    line: u32,
    column: u32,
}

impl Lexer {
    spec fn flags(&self) -> CharFlags {
        CharFlags { alphabetic: self.alphabetic@, alphanumeric: self.alphanumeric@ }
    }

    spec fn wf(&self) -> bool {
        &&& self.pos <= self.chars@.len()
        &&& self.alphabetic@.len() == self.chars@.len()
        &&& self.alphanumeric@.len() == self.chars@.len()
        &&& self.chars@.len() < u32::MAX
        &&& byte_offset(self.chars@, self.chars@.len() as int) <= usize::MAX
        &&& self.offset == byte_offset(self.chars@, self.pos as int)
        &&& self.line == line_at(self.chars@, self.pos as int)
        &&& self.column == column_at(self.chars@, self.pos as int)
    }

    /// `m` records position `m.index` of this source.
    spec fn marks(&self, m: Mark) -> bool {
        &&& m.index <= self.pos
        &&& m.offset == byte_offset(self.chars@, m.index as int)
        &&& m.line == line_at(self.chars@, m.index as int)
        &&& m.column == column_at(self.chars@, m.index as int)
    }

    fn new(source: &str, alphabetic: Vec<bool>, alphanumeric: Vec<bool>) -> (l: Lexer)
        requires
            source@.len() < u32::MAX,
            encode_utf8(source@).len() <= usize::MAX,
            alphabetic@.len() == source@.len(),
            alphanumeric@.len() == source@.len(),
        ensures
            l.wf(),
            l.chars@ == source@,
            l.flags() == (CharFlags { alphabetic: alphabetic@, alphanumeric: alphanumeric@ }),
            l.pos == 0,
    {
        let chars = source_chars(source);
        proof {
            assert(chars@.take(0) =~= Seq::<char>::empty());
            assert(chars@.take(chars@.len() as int) =~= chars@);
        }
        Lexer { chars, alphabetic, alphanumeric, pos: 0, offset: 0, line: 1, column: 1 }
    }

    /// Whether the `i`th character can start an identifier.
    fn ident_start_at(&self, i: usize) -> (r: bool)
        requires
            self.wf(),
            i < self.chars@.len(),
        ensures
            r == ident_start(self.flags(), self.chars@, i as int),
    {
        self.alphabetic[i] || self.chars[i] == '_'
    }

    /// Whether the `i`th character is in `class`.
    fn holds_at(&self, class: CharClass, i: usize) -> (r: bool)
        requires
            self.wf(),
            i < self.chars@.len(),
        ensures
            r == class_holds(self.flags(), class, self.chars@, i as int),
    {
        let c = self.chars[i];
        match class {
            CharClass::Whitespace => char_is_whitespace(c),
            CharClass::IdentCont => self.alphanumeric[i] || c == '_',
            CharClass::NotNewline => c != '\n',
            CharClass::NotQuote => c != '\'',
        }
    }

    fn mark(&self) -> (m: Mark)
        requires
            self.wf(),
        ensures
            self.marks(m),
            m.index == self.pos,
    {
        Mark { index: self.pos, offset: self.offset, line: self.line, column: self.column }
    }

    fn peek(&self) -> (r: Option<char>)
        requires
            self.wf(),
        ensures
            self.pos < self.chars@.len() ==> r == Some(self.chars@[self.pos as int]),
            self.pos >= self.chars@.len() ==> r is None,
    {
        if self.pos < self.chars.len() {
            Some(self.chars[self.pos])
        } else {
            None
        }
    }

    fn advance(&mut self) -> (r: Option<char>)
        requires
            old(self).wf(),
        ensures
            final(self).wf(),
            final(self).chars == old(self).chars,
            final(self).flags() == old(self).flags(),
            old(self).pos < old(self).chars@.len() ==> r == Some(old(self).chars@[old(self).pos as int])
                && final(self).pos == old(self).pos + 1,
            old(self).pos >= old(self).chars@.len() ==> r is None && final(self).pos == old(self).pos,
    {
        if self.pos >= self.chars.len() {
            return None;
        }
        let c = self.chars[self.pos];
        proof {
            lemma_byte_offset_step(self.chars@, self.pos as int);
            lemma_byte_offset_mono(self.chars@, self.pos + 1, self.chars@.len() as int);
            lemma_line_column_bound(self.chars@, self.pos as int);
        }
        let w = char_width(c);
        self.offset = self.offset + w;
        if c == '\n' {
            self.line = self.line + 1;
            self.column = 1;
        } else {
            self.column = self.column + 1;
        }
        self.pos = self.pos + 1;
        Some(c)
    }

    /// Consumes characters while they belong to `class`.
    fn advance_while(&mut self, class: CharClass)
        requires
            old(self).wf(),
        ensures
            final(self).wf(),
            final(self).chars == old(self).chars,
            final(self).flags() == old(self).flags(),
            final(self).pos == class_end(old(self).flags(), class, old(self).chars@, old(self).pos as int),
    {
        let ghost start = self.pos as int;
        while self.pos < self.chars.len() && self.holds_at(class, self.pos)
            invariant
                self.wf(),
                self.chars == old(self).chars,
                self.flags() == old(self).flags(),
                class_end(self.flags(), class, self.chars@, self.pos as int) == class_end(
                    self.flags(),
                    class,
                    self.chars@,
                    start,
                ),
            decreases self.chars@.len() - self.pos,
        {
            self.advance();
        }
    }

    fn advance_if(&mut self, expected: char) -> (r: bool)
        requires
            old(self).wf(),
        ensures
            final(self).wf(),
            final(self).chars == old(self).chars,
            final(self).flags() == old(self).flags(),
            r == (old(self).pos < old(self).chars@.len() && old(self).chars@[old(self).pos as int]
                == expected),
            final(self).pos == if r {
                old(self).pos + 1
            } else {
                old(self).pos as int
            },
    {
        if self.peek() == Some(expected) {
            self.advance();
            true
        } else {
            false
        }
    }

    /// A span from the mark `m` to the current position.
    fn span_from(&self, m: Mark) -> (r: Span)
        requires
            self.wf(),
            self.marks(m),
        ensures
            r == span_of(self.chars@, m.index as int, self.pos as int),
    {
        Span { start: m.offset, end: self.offset, line: m.line, column: m.column }
    }

    /// The characters `from..to` as a string.
    fn text(&self, from: usize, to: usize) -> (r: String)
        requires
            from <= to <= self.chars@.len(),
        ensures
            r@ == self.chars@.subrange(from as int, to as int),
    {
        let mut r = String::new();
        let mut i = from;
        while i < to
            invariant
                from <= i <= to,
                to <= self.chars@.len(),
                r@ == self.chars@.subrange(from as int, i as int),
            decreases to - i,
        {
            r.push(self.chars[i]);
            proof {
                assert(self.chars@.subrange(from as int, i + 1) =~= self.chars@.subrange(
                    from as int,
                    i as int,
                ).push(self.chars@[i as int]));
            }
            i = i + 1;
        }
        r
    }

    /// Builds a token covering the mark `m` up to the current position.
    fn make_token(&self, kind: TokenKind, m: Mark) -> (t: Token)
        requires
            self.wf(),
            self.marks(m),
        ensures
            t@ == token_at(self.chars@, kind@, m.index as int, self.pos as int),
            t.kind == kind,
    {
        let span = self.span_from(m);
        let lexeme = self.text(m.index, self.pos);
        Token { kind, lexeme, span }
    }

    /// Skips whitespace and `//` line comments.
    fn skip_trivia(&mut self)
        requires
            old(self).wf(),
        ensures
            final(self).wf(),
            final(self).chars == old(self).chars,
            final(self).flags() == old(self).flags(),
            final(self).pos == trivia_end(old(self).chars@, old(self).pos as int),
    {
        let ghost start = self.pos as int;
        loop
            invariant_except_break
                trivia_end(self.chars@, self.pos as int) == trivia_end(self.chars@, start),
            invariant
                self.wf(),
                self.chars == old(self).chars,
                self.flags() == old(self).flags(),
            ensures
                self.wf(),
                self.chars == old(self).chars,
                self.flags() == old(self).flags(),
                self.pos == trivia_end(self.chars@, start),
            decreases self.chars@.len() - self.pos,
        {
            let ghost p = self.pos as int;
            self.advance_while(CharClass::Whitespace);
            let j = self.pos;
            proof {
                lemma_run_ends(self.chars@, p);
                assert(j == whitespace_end(self.chars@, p));
            }
            if !(j + 1 < self.chars.len() && self.chars[j] == '/' && self.chars[j + 1] == '/') {
                assert(trivia_end(self.chars@, p) == j);
                break;
            }
            self.advance_while(CharClass::NotNewline);
            proof {
                lemma_run_ends(self.chars@, j + 1);
                assert(line_end(self.chars@, j as int) == line_end(self.chars@, j + 1));
                assert(trivia_end(self.chars@, p) == trivia_end(
                    self.chars@,
                    line_end(self.chars@, j + 1),
                ));
            }
        }
    }
}

struct ScanResult {
    token: Token,
    errors: Vec<LexError>,
}

impl ScanResult {
    /// No errors.
    fn ok(token: Token) -> (r: Self)
        ensures
            r.token == token,
            r.errors@ == Seq::<LexError>::empty(),
    {
        Self { token, errors: Vec::new() }
    }

    /// The token is an `Invalid` placeholder and there is exactly one error.
    fn err(error: LexError, token: Token) -> (r: Self)
        ensures
            r.token == token,
            r.errors@ == seq![error],
    {
        let mut errors = Vec::new();
        errors.push(error);
        Self { token, errors }
    }

    /// A token that comes with errors, e.g. a string with bad escapes.
    fn with_errors(token: Token, errors: Vec<LexError>) -> (r: Self)
        ensures
            r.token == token,
            r.errors == errors,
    {
        Self { token, errors }
    }
}

/// `r` is what scanning the lexeme at `s` gives, by `sc`.
spec fn scanned_as(cs: Seq<char>, s: int, sc: Scanned, r: ScanResult) -> bool {
    &&& r.token@ == token_at(cs, sc.kind, s, sc.end)
    &&& r.errors@ == errors_at(cs, s, sc.errors)
}

impl Lexer {
    // Each scanning function is called with the first character of its
    // lexeme still unconsumed and returns with the lexeme consumed.
    fn scan_char(&mut self, m: Mark) -> (r: ScanResult)
        requires
            old(self).wf(),
            old(self).marks(m),
            m.index == old(self).pos,
            old(self).pos < old(self).chars@.len(),
        ensures
            final(self).wf(),
            final(self).chars == old(self).chars,
            final(self).flags() == old(self).flags(),
            final(self).pos == scan_char_spec(old(self).chars@, m.index as int).end,
            scanned_as(old(self).chars@, m.index as int, scan_char_spec(old(self).chars@, m.index as int), r),
    {
        let ghost cs = self.chars@;
        let ghost s = m.index as int;
        self.advance();  // opening '
        let ghost cc = char_content(cs, s + 1);
        let (content, error_kind): (Option<char>, Option<LexErrorKind>) = match self.peek() {
            Some('\'') => {
                self.advance();
                (None, Some(LexErrorKind::EmptyCharLiteral))
            },
            None => (None, Some(LexErrorKind::UnterminatedChar)),
            Some('\\') => {
                self.advance();
                match self.advance() {
                    Some(c) => match unescape(c) {
                        Ok(u) => (Some(u), None),
                        Err(()) => (Some(c), Some(LexErrorKind::InvalidEscape(c))),
                    },
                    None => (None, Some(LexErrorKind::UnterminatedChar)),
                }
            },
            Some(c) => {
                self.advance();
                (Some(c), None)
            },
        };
        assert(content == cc.0 && error_kind == cc.1 && self.pos == cc.2);
        let error_kind = match error_kind {
            Some(k) => Some(k),
            None => match self.peek() {
                Some('\'') => {
                    self.advance();
                    None
                },
                Some(_) => {
                    self.advance_while(CharClass::NotQuote);
                    proof {
                        lemma_run_ends(cs, cc.2);
                    }
                    self.advance_if('\'');
                    Some(LexErrorKind::OverlongCharLiteral)
                },
                None => Some(LexErrorKind::UnterminatedChar),
            },
        };
        assert((error_kind, self.pos as int) == char_close(cs, cc.1, cc.2));
        proof {
            lemma_scan_char(cs, s, content, cc.1, cc.2, error_kind, self.pos as int);
        }
        match (content, error_kind) {
            (Some(c), None) => {
                let r = ScanResult::ok(self.make_token(TokenKind::Literal(Literal::Char(c)), m));
                assert(r.errors@ =~= errors_at(cs, s, seq![]));
                r
            },
            (_, kind) => {
                let token = self.make_token(TokenKind::Invalid, m);
                // Content is only ever missing alongside an error.
                let kind = match kind {
                    Some(k) => k,
                    None => LexErrorKind::UnterminatedChar,
                };
                let span = token.span;
                let r = ScanResult::err(LexError::new(kind, span), token);
                proof {
                    assert(r.errors@ =~= errors_at(cs, s, scan_char_spec(cs, s).errors));
                }
                r
            },
        }
    }

    fn scan_string(&mut self, m: Mark) -> (r: ScanResult)
        requires
            old(self).wf(),
            old(self).marks(m),
            m.index == old(self).pos,
            old(self).pos < old(self).chars@.len(),
        ensures
            final(self).wf(),
            final(self).chars == old(self).chars,
            final(self).flags() == old(self).flags(),
            final(self).pos == scan_string_spec(old(self).chars@, m.index as int).end,
            scanned_as(old(self).chars@, m.index as int, scan_string_spec(old(self).chars@, m.index as int), r),
    {
        let ghost cs = self.chars@;
        let ghost s = m.index as int;
        self.advance();  // opening "
        let ghost b0 = string_body(cs, s + 1);
        let mut value = String::new();
        let mut errors: Vec<LexError> = Vec::new();
        let mut terminated = false;
        loop
            invariant_except_break
                !terminated,
                value@ + string_body(cs, self.pos as int).value == b0.value,
                errors@ + errors_at(cs, s, string_body(cs, self.pos as int).bad) == errors_at(
                    cs,
                    s,
                    b0.bad,
                ),
                string_body(cs, self.pos as int).end == b0.end,
                string_body(cs, self.pos as int).closed == b0.closed,
            invariant
                self.wf(),
                self.chars == old(self).chars,
                self.flags() == old(self).flags(),
                self.chars@ == cs,
                self.marks(m),
                s == m.index,
                s < self.pos,
            ensures
                terminated == b0.closed,
                self.pos == b0.end,
                terminated ==> value@ == b0.value && errors@ == errors_at(cs, s, b0.bad),
            decreases self.chars@.len() - self.pos,
        {
            let ghost p = self.pos as int;
            match self.advance() {
                Some('"') => {
                    terminated = true;
                    assert(value@ =~= b0.value);
                    assert(errors@ =~= errors_at(cs, s, b0.bad));
                    break;
                },
                Some('\\') => match self.advance() {
                    Some(c) => match unescape(c) {
                        Ok(u) => {
                            value.push(u);
                            assert(value@ + string_body(cs, self.pos as int).value =~= b0.value);
                        },
                        Err(()) => {
                            value.push(c);
                            let span = self.span_from(m);
                            errors.push(LexError::new(LexErrorKind::InvalidEscape(c), span));
                            assert(value@ + string_body(cs, self.pos as int).value =~= b0.value);
                            let ghost rest = string_body(cs, self.pos as int).bad;
                            proof {
                                lemma_string_body_bad_escape(cs, s, p, c);
                            }
                            assert(errors@ + errors_at(cs, s, rest) =~= errors_at(cs, s, b0.bad));
                        },
                    },
                    None => {
                        assert(!string_body(cs, p).closed && string_body(cs, p).end == cs.len());
                        break;
                    },
                },
                Some(c) => {
                    value.push(c);
                    assert(value@ + string_body(cs, self.pos as int).value =~= b0.value);
                },
                None => {
                    assert(!string_body(cs, p).closed && string_body(cs, p).end == cs.len());
                    break;
                },
            }
        }
        if !terminated {
            // An unterminated string reports only that, whatever escapes it held.
            let token = self.make_token(TokenKind::Invalid, m);
            let error = LexError::new(LexErrorKind::UnterminatedString, token.span);
            let r = ScanResult::err(error, token);
            proof {
                assert(r.errors@ =~= errors_at(cs, s, scan_string_spec(cs, s).errors));
            }
            return r;
        }
        let token = self.make_token(TokenKind::Literal(Literal::Str(value)), m);
        ScanResult::with_errors(token, errors)
    }
}

proof fn lemma_number_digits(cs: Seq<char>, i: int, k: int)
    requires
        0 <= i <= k,
        number_end(cs, i, false).1 == false,
        k < number_end(cs, i, false).0,
    ensures
        ascii_digit(cs[k]),
    decreases cs.len() - i,
{
    if 0 <= i < cs.len() && ascii_digit(cs[i]) {
        if i < k {
            lemma_number_digits(cs, i + 1, k);
        }
    } else if i + 1 < cs.len() && cs[i] == '.' && ascii_digit(cs[i + 1]) {
        lemma_number_end_dot(cs, i + 1);
    }
}

pub proof fn lemma_number_end_dot(cs: Seq<char>, i: int)
    ensures
        number_end(cs, i, true).1 == true,
    decreases cs.len() - i,
{
    if 0 <= i < cs.len() && ascii_digit(cs[i]) {
        lemma_number_end_dot(cs, i + 1);
    }
}

/// The value of the decimal digits `from..to`, if it fits in an `i64`.
fn parse_digits(chars: &Vec<char>, from: usize, to: usize) -> (r: Option<i64>)
    requires
        from <= to <= chars@.len(),
        forall|k: int| from <= k < to ==> ascii_digit(#[trigger] chars@[k]),
    ensures
        digits_value(chars@.subrange(from as int, to as int)) <= i64::MAX ==> r == Some(
            digits_value(chars@.subrange(from as int, to as int)) as i64,
        ),
        digits_value(chars@.subrange(from as int, to as int)) > i64::MAX ==> r is None,
{
    let ghost ds = chars@.subrange(from as int, to as int);
    let mut acc: u64 = 0;
    let mut i = from;
    while i < to
        invariant
            from <= i <= to,
            to <= chars@.len(),
            ds == chars@.subrange(from as int, to as int),
            forall|k: int| from <= k < to ==> ascii_digit(#[trigger] chars@[k]),
            acc == digits_value(chars@.subrange(from as int, i as int)),
            acc <= i64::MAX,
        decreases to - i,
    {
        let c = chars[i];
        let d = (c as u32 - '0' as u32) as u128;
        let next: u128 = (acc as u128) * 10 + d;
        proof {
            assert(chars@.subrange(from as int, i + 1).drop_last() =~= chars@.subrange(
                from as int,
                i as int,
            ));
        }
        if next > i64::MAX as u128 {
            proof {
                assert(ds.take(i + 1 - from) =~= chars@.subrange(from as int, i + 1));
                lemma_digits_value_prefix(ds, i + 1 - from);
            }
            return None;
        }
        acc = next as u64;
        i = i + 1;
    }
    Some(acc as i64)
}

proof fn lemma_errors_at_single(cs: Seq<char>, s: int, k: LexErrorKind, e: int)
    ensures
        errors_at(cs, s, seq![ErrorAt { kind: k, end: e }]) =~= seq![
            LexError { kind: k, span: span_of(cs, s, e) },
        ],
{
}

/// `scan_token` on a character that starts no lexeme.
proof fn lemma_scan_unexpected(fl: CharFlags, cs: Seq<char>, s: int, c: char)
    requires
        0 <= s < cs.len(),
        cs[s] == c,
        c != '"',
        c != '\'',
        !ascii_digit(c),
        !ident_start(fl, cs, s),
        !operator_char(c),
        !delimiter_char(c),
    ensures
        scan_token(fl, cs, s).kind == TokenKindView::Invalid,
        scan_token(fl, cs, s).end == s + 1,
        scan_token(fl, cs, s).errors.len() == 1,
        scan_token(fl, cs, s).errors[0].end == s + 1,
        errors_at(cs, s, scan_token(fl, cs, s).errors) =~= seq![
            LexError { kind: LexErrorKind::UnexpectedChar(c), span: span_of(cs, s, s + 1) },
        ],
{
    lemma_errors_at_single(cs, s, LexErrorKind::UnexpectedChar(c), s + 1);
}

impl Lexer {
    // Only base 10 is supported.
    fn scan_number(&mut self, m: Mark) -> (r: ScanResult)
        requires
            old(self).wf(),
            old(self).marks(m),
            m.index == old(self).pos,
            old(self).pos < old(self).chars@.len(),
            ascii_digit(old(self).chars@[old(self).pos as int]),
        ensures
            final(self).wf(),
            final(self).chars == old(self).chars,
            final(self).flags() == old(self).flags(),
            final(self).pos == scan_number_spec(old(self).chars@, m.index as int).end,
            scanned_as(old(self).chars@, m.index as int, scan_number_spec(old(self).chars@, m.index as int), r),
    {
        let ghost cs = self.chars@;
        let ghost s = m.index as int;
        let ghost ne = number_end(cs, s, false);
        let mut seen_dot = false;
        loop
            invariant
                self.wf(),
                self.chars == old(self).chars,
                self.flags() == old(self).flags(),
                self.chars@ == cs,
                self.marks(m),
                s == m.index,
                s <= self.pos,
                number_end(cs, self.pos as int, seen_dot) == ne,
            ensures
                self.wf(),
                self.chars == old(self).chars,
                self.flags() == old(self).flags(),
                self.marks(m),
                self.pos == ne.0,
                seen_dot == ne.1,
            decreases self.chars@.len() - self.pos,
        {
            match self.peek() {
                Some(c) => {
                    if is_ascii_digit(c) {
                        self.advance();
                    } else if c == '.' && !seen_dot {
                        // A `.` belongs to the number only when a digit follows it.
                        let next_is_digit = self.pos + 1 < self.chars.len() && is_ascii_digit(
                            self.chars[self.pos + 1],
                        );
                        if next_is_digit {
                            seen_dot = true;
                            self.advance();
                        } else {
                            break;
                        }
                    } else {
                        break;
                    }
                },
                None => {
                    break;
                },
            }
        }
        let mut token = self.make_token(TokenKind::Invalid, m);
        if seen_dot {
            token.kind = TokenKind::Literal(Literal::Float(token.lexeme.clone()));
            let r = ScanResult::ok(token);
            assert(r.errors@ =~= errors_at(cs, s, seq![]));
            r
        } else {
            proof {
                assert forall|k: int| s <= k < self.pos implies ascii_digit(#[trigger] cs[k]) by {
                    lemma_number_digits(cs, s, k);
                }
            }
            match parse_digits(&self.chars, m.index, self.pos) {
                Some(v) => {
                    token.kind = TokenKind::Literal(Literal::Int(v));
                    let r = ScanResult::ok(token);
                    assert(r.errors@ =~= errors_at(cs, s, seq![]));
                    r
                },
                None => {
                    let span = token.span;
                    let r = ScanResult::err(LexError::new(LexErrorKind::IntegerOverflow, span), token);
                    assert(r.errors@ =~= errors_at(cs, s, scan_number_spec(cs, s).errors));
                    r
                },
            }
        }
    }

    fn scan_ident(&mut self, m: Mark) -> (r: ScanResult)
        requires
            old(self).wf(),
            old(self).marks(m),
            m.index == old(self).pos,
            old(self).pos < old(self).chars@.len(),
            ident_start(old(self).flags(), old(self).chars@, old(self).pos as int),
        ensures
            final(self).wf(),
            final(self).chars == old(self).chars,
            final(self).flags() == old(self).flags(),
            final(self).pos == scan_ident_spec(old(self).flags(), old(self).chars@, m.index as int).end,
            scanned_as(
                old(self).chars@,
                m.index as int,
                scan_ident_spec(old(self).flags(), old(self).chars@, m.index as int),
                r,
            ),
    {
        let ghost cs = self.chars@;
        let ghost fl = self.flags();
        let ghost s = m.index as int;
        self.advance();
        proof {
            lemma_ident_end(fl, cs, s + 1);
        }
        self.advance_while(CharClass::IdentCont);
        let mut token = self.make_token(TokenKind::Identifier, m);
        let kind = if same_text(token.lexeme.as_str(), "true") {
            TokenKind::Literal(Literal::Bool(true))
        } else if same_text(token.lexeme.as_str(), "false") {
            TokenKind::Literal(Literal::Bool(false))
        } else if is_keyword(token.lexeme.as_str()) {
            TokenKind::Keyword
        } else {
            TokenKind::Identifier
        };
        token.kind = kind;
        let r = ScanResult::ok(token);
        assert(r.errors@ =~= errors_at(cs, s, seq![]));
        r
    }

    fn scan_operator(&mut self, m: Mark) -> (r: ScanResult)
        requires
            old(self).wf(),
            old(self).marks(m),
            m.index == old(self).pos,
            old(self).pos < old(self).chars@.len(),
        ensures
            final(self).wf(),
            final(self).chars == old(self).chars,
            final(self).flags() == old(self).flags(),
            final(self).pos == scan_operator_spec(old(self).chars@, m.index as int).end,
            scanned_as(old(self).chars@, m.index as int, scan_operator_spec(old(self).chars@, m.index as int), r),
    {
        let ghost cs = self.chars@;
        let is_pair = self.pos + 1 < self.chars.len() && is_two_char_operator(
            self.chars[self.pos],
            self.chars[self.pos + 1],
        );
        self.advance();
        if is_pair {
            self.advance();
        }
        let r = ScanResult::ok(self.make_token(TokenKind::Operator, m));
        assert(r.errors@ =~= errors_at(cs, m.index as int, seq![]));
        r
    }

    fn delimiter_token(&mut self, m: Mark) -> (t: Token)
        requires
            old(self).wf(),
            old(self).marks(m),
            m.index == old(self).pos,
            old(self).pos < old(self).chars@.len(),
        ensures
            final(self).wf(),
            final(self).chars == old(self).chars,
            final(self).flags() == old(self).flags(),
            final(self).pos == m.index + 1,
            t@ == token_at(old(self).chars@, TokenKindView::Delimiter, m.index as int, m.index + 1),
    {
        self.advance();
        self.make_token(TokenKind::Delimiter, m)
    }
}

impl Lexer {
    /// Scans the lexeme at the current position, chosen by its first
    /// character.
    fn scan_next(&mut self, m: Mark) -> (r: ScanResult)
        requires
            old(self).wf(),
            old(self).marks(m),
            m.index == old(self).pos,
            old(self).pos < old(self).chars@.len(),
        ensures
            final(self).wf(),
            final(self).chars == old(self).chars,
            final(self).flags() == old(self).flags(),
            final(self).pos == scan_token(old(self).flags(), old(self).chars@, m.index as int).end,
            scanned_as(old(self).chars@, m.index as int, scan_token(old(self).flags(), old(self).chars@, m.index as int), r),
    {
        let ghost cs = self.chars@;
        let ghost fl = self.flags();
        let ghost j = m.index as int;
        let c = self.chars[self.pos];
        if c == '"' {
            proof {
                assert(scan_token(fl, cs, j) == scan_string_spec(cs, j));
            }
            self.scan_string(m)
        } else if c == '\'' {
            proof {
                assert(scan_token(fl, cs, j) == scan_char_spec(cs, j));
            }
            self.scan_char(m)
        } else if is_ascii_digit(c) {
            proof {
                assert(scan_token(fl, cs, j) == scan_number_spec(cs, j));
            }
            self.scan_number(m)
        } else if self.ident_start_at(self.pos) {
            proof {
                assert(scan_token(fl, cs, j) == scan_ident_spec(fl, cs, j));
            }
            self.scan_ident(m)
        } else if is_operator(c) {
            proof {
                assert(scan_token(fl, cs, j) == scan_operator_spec(cs, j));
            }
            self.scan_operator(m)
        } else if is_delimiter(c) {
            let t = self.delimiter_token(m);
            let r = ScanResult::ok(t);
            assert(r.errors@ =~= errors_at(cs, j, seq![]));
            assert(scan_token(fl, cs, j).kind == TokenKindView::Delimiter);
            assert(scan_token(fl, cs, j).end == j + 1);
            assert(scan_token(fl, cs, j).errors == Seq::<ErrorAt>::empty());
            r
        } else {
            self.advance();
            let token = self.make_token(TokenKind::Invalid, m);
            let span = token.span;
            let error = LexError::new(LexErrorKind::UnexpectedChar(c), span);
            let r = ScanResult::err(error, token);
            proof {
                lemma_scan_unexpected(fl, cs, j, c);
                assert(self.pos == j + 1);
                assert(errors_at(cs, j, scan_token(fl, cs, j).errors) == seq![error]);
            }
            r
        }
    }
}

fn append_errors(out: &mut Vec<LexError>, errors: &Vec<LexError>)
    ensures
        final(out)@ == old(out)@ + errors@,
{
    let mut k: usize = 0;
    while k < errors.len()
        invariant
            k <= errors@.len(),
            out@ == old(out)@ + errors@.take(k as int),
        decreases errors@.len() - k,
    {
        out.push(errors[k]);
        proof {
            assert(errors@.take(k + 1) =~= errors@.take(k as int).push(errors@[k as int]));
            assert(old(out)@ + errors@.take(k + 1) =~= (old(out)@ + errors@.take(k as int)).push(
                errors@[k as int],
            ));
        }
        k = k + 1;
    }
    proof {
        assert(errors@.take(errors@.len() as int) =~= errors@);
    }
}

/// Scans the whole source, given for each of its characters whether it is
/// alphabetic (`alphabetic[i]`) and whether alphanumeric (`alphanumeric[i]`).
/// Never fails outright: bad input yields `Invalid` tokens plus entries in
/// `LexOutput::errors`, and scanning carries on.
pub fn lex_classified(source: &str, alphabetic: Vec<bool>, alphanumeric: Vec<bool>) -> (out: LexOutput)
    requires
        source@.len() < u32::MAX,
        encode_utf8(source@).len() <= usize::MAX,
        alphabetic@.len() == source@.len(),
        alphanumeric@.len() == source@.len(),
    ensures
        out@ == lex_with(CharFlags { alphabetic: alphabetic@, alphanumeric: alphanumeric@ }, source@),
{
    let ghost cs = source@;
    let ghost fl = CharFlags { alphabetic: alphabetic@, alphanumeric: alphanumeric@ };
    let mut lexer = Lexer::new(source, alphabetic, alphanumeric);
    let mut output = LexOutput { tokens: Vec::new(), errors: Vec::new() };
    loop
        invariant
            lexer.wf(),
            lexer.chars@ == cs,
            lexer.flags() == fl,
            lex_with(fl, cs) == (output@.0 + lex_from(fl, cs, lexer.pos as int).0, output@.1 + lex_from(
                fl,
                cs,
                lexer.pos as int,
            ).1),
        ensures
            lex_with(fl, cs) == output@,
        decreases cs.len() - lexer.pos,
    {
        let ghost p = lexer.pos as int;
        lexer.skip_trivia();
        proof {
            lemma_trivia_end(cs, p);
        }
        if lexer.pos >= lexer.chars.len() {
            proof {
                assert(lex_from(fl, cs, p) == (Seq::<TokenView>::empty(), Seq::<LexError>::empty()));
                assert(output@.0 + lex_from(fl, cs, p).0 =~= output@.0);
                assert(output@.1 + lex_from(fl, cs, p).1 =~= output@.1);
                assert(lex_with(fl, cs) == output@);
            }
            break;
        }
        let m = lexer.mark();
        let ghost j = m.index as int;
        let ScanResult { token, errors } = lexer.scan_next(m);
        let ghost sc = scan_token(fl, cs, j);
        proof {
            lemma_scan_progress(fl, cs, j);
            assert(token@ == token_at(cs, sc.kind, j, sc.end));
            assert(errors@ == errors_at(cs, j, sc.errors));
            assert(lexer.pos == sc.end);
        }
        let ghost before = output@;
        output.tokens.push(token);
        append_errors(&mut output.errors, &errors);
        proof {
            assert(output@.0 =~= before.0.push(token@));
            assert(lex_from(fl, cs, p) == (seq![token@] + lex_from(fl, cs, sc.end).0, errors@ + lex_from(fl, cs, sc.end).1));
            assert(output@.0 + lex_from(fl, cs, lexer.pos as int).0 =~= before.0 + lex_from(fl, cs, p).0);
            assert(output@.1 + lex_from(fl, cs, lexer.pos as int).1 =~= before.1 + lex_from(fl, cs, p).1);
        }
    }
    output
}

/// Scans the whole source, classifying its characters with
/// `char::is_alphabetic` and `char::is_alphanumeric`.
pub fn lex(source: &str) -> (out: LexOutput)
    requires
        source@.len() < u32::MAX,
        encode_utf8(source@).len() <= usize::MAX,
    ensures
        out@ == lex_spec(source@),
{
    let chars = source_chars(source);
    let mut alphabetic: Vec<bool> = Vec::new();
    let mut alphanumeric: Vec<bool> = Vec::new();
    let mut i: usize = 0;
    while i < chars.len()
        invariant
            chars@ == source@,
            i <= chars@.len(),
            alphabetic@ == chars@.take(i as int).map_values(|c: char| char_alphabetic(c)),
            alphanumeric@ == chars@.take(i as int).map_values(|c: char| char_alphanumeric(c)),
        decreases chars@.len() - i,
    {
        alphabetic.push(char_is_alphabetic(chars[i]));
        alphanumeric.push(char_is_alphanumeric(chars[i]));
        i = i + 1;
        proof {
            assert(alphabetic@ =~= chars@.take(i as int).map_values(|c: char| char_alphabetic(c)));
            assert(alphanumeric@ =~= chars@.take(i as int).map_values(|c: char| char_alphanumeric(c)));
        }
    }
    proof {
        assert(chars@.take(i as int) =~= chars@);
        assert((CharFlags { alphabetic: alphabetic@, alphanumeric: alphanumeric@ }) == std_flags(source@));
    }
    lex_classified(source, alphabetic, alphanumeric)
}

// ---------------------------------------------------------------------
// Laws
// ---------------------------------------------------------------------

proof fn lemma_encode_concat(a: Seq<char>, b: Seq<char>)
    ensures
        encode_utf8(a + b) =~= encode_utf8(a) + encode_utf8(b),
    decreases b.len(),
{
    if b.len() == 0 {
        assert(a + b =~= a);
        assert(encode_utf8(b) =~= Seq::<u8>::empty());
    } else {
        let c = b.last();
        let b1 = b.drop_last();
        assert(a + b =~= (a + b1).push(c));
        assert(b =~= b1.push(c));
        lemma_encode_push(a + b1, c);
        lemma_encode_push(b1, c);
        lemma_encode_concat(a, b1);
    }
}

/// The bytes of the characters `s..e` are the source's bytes between
/// their offsets.
proof fn lemma_encode_slice(cs: Seq<char>, s: int, e: int)
    requires
        0 <= s <= e <= cs.len(),
    ensures
        encode_utf8(cs.subrange(s, e)) =~= encode_utf8(cs).subrange(
            byte_offset(cs, s) as int,
            byte_offset(cs, e) as int,
        ),
{
    assert(cs.take(e) =~= cs.take(s) + cs.subrange(s, e));
    lemma_encode_concat(cs.take(s), cs.subrange(s, e));
    assert(cs =~= cs.take(e) + cs.skip(e));
    lemma_encode_concat(cs.take(e), cs.skip(e));
}

/// Where each token of `lex_from(fl, cs, i)` starts and ends, as character
/// positions: every token is the text between them, the positions rise
/// from `i`, and no token overlaps the next.
proof fn lemma_token_positions(fl: CharFlags, cs: Seq<char>, i: int) -> (r: (Seq<int>, Seq<int>))
    requires
        0 <= i <= cs.len(),
    ensures
        ({
            let toks = lex_from(fl, cs, i).0;
            let (starts, ends) = r;
            &&& starts.len() == toks.len() && ends.len() == toks.len()
            &&& forall|k: int|
                0 <= k < toks.len() ==> {
                    &&& i <= #[trigger] starts[k] < ends[k] <= cs.len()
                    &&& toks[k].lexeme == cs.subrange(starts[k], ends[k])
                    &&& toks[k].span == span_of(cs, starts[k], ends[k])
                }
            &&& forall|k: int| 0 <= k < toks.len() - 1 ==> #[trigger] ends[k] <= starts[k + 1]
        }),
    decreases cs.len() - i,
{
    lemma_trivia_end(cs, i);
    let j = trivia_end(cs, i);
    if j >= cs.len() {
        (seq![], seq![])
    } else {
        lemma_scan_progress(fl, cs, j);
        let sc = scan_token(fl, cs, j);
        let (st, en) = lemma_token_positions(fl, cs, sc.end);
        let starts = seq![j] + st;
        let ends = seq![sc.end] + en;
        let toks = lex_from(fl, cs, i).0;
        assert(toks == seq![token_at(cs, sc.kind, j, sc.end)] + lex_from(fl, cs, sc.end).0);
        assert forall|k: int| 0 <= k < toks.len() implies {
            &&& i <= #[trigger] starts[k] < ends[k] <= cs.len()
            &&& toks[k].lexeme == cs.subrange(starts[k], ends[k])
            &&& toks[k].span == span_of(cs, starts[k], ends[k])
        } by {
            if k > 0 {
                assert(starts[k] == st[k - 1]);
                assert(ends[k] == en[k - 1]);
                assert(toks[k] == lex_from(fl, cs, sc.end).0[k - 1]);
            }
        }
        assert forall|k: int| 0 <= k < toks.len() - 1 implies #[trigger] ends[k] <= starts[k + 1] by {
            assert(starts[k + 1] == st[k]);
            if k > 0 {
                assert(ends[k] == en[k - 1]);
            }
        }
        (starts, ends)
    }
}

/// Tokens are pieces of the source, in order: each token's lexeme is
/// exactly the source bytes its span covers (the span is never empty),
/// and each token ends where or before the next one starts.
pub proof fn lexemes_are_source_slices_in_order(fl: CharFlags, cs: Seq<char>)
    requires
        encode_utf8(cs).len() <= usize::MAX,
    ensures
        ({
            let toks = lex_with(fl, cs).0;
            &&& forall|k: int|
                0 <= k < toks.len() ==> {
                    &&& (#[trigger] toks[k]).span.start < toks[k].span.end
                    &&& encode_utf8(toks[k].lexeme) == encode_utf8(cs).subrange(
                        toks[k].span.start as int,
                        toks[k].span.end as int,
                    )
                }
            &&& forall|k: int|
                0 <= k < toks.len() - 1 ==> (#[trigger] toks[k]).span.end <= toks[k + 1].span.start
        }),
{
    let toks = lex_with(fl, cs).0;
    let (starts, ends) = lemma_token_positions(fl, cs, 0);
    assert(byte_offset(cs, cs.len() as int) == encode_utf8(cs).len()) by {
        assert(cs.take(cs.len() as int) =~= cs);
    }
    assert forall|k: int| 0 <= k < toks.len() implies {
        &&& (#[trigger] toks[k]).span.start < toks[k].span.end
        &&& encode_utf8(toks[k].lexeme) == encode_utf8(cs).subrange(
            toks[k].span.start as int,
            toks[k].span.end as int,
        )
    } by {
        let (s, e) = (starts[k], ends[k]);
        lemma_byte_offset_mono(cs, s + 1, e);
        lemma_byte_offset_mono(cs, e, cs.len() as int);
        lemma_byte_offset_step(cs, s);
        assert(encode_scalar(cs[s] as u32).len() >= 1);
        lemma_encode_slice(cs, s, e);
    }
    assert forall|k: int| 0 <= k < toks.len() - 1 implies (#[trigger] toks[k]).span.end
        <= toks[k + 1].span.start by {
        let s1 = starts[k];
        let e = ends[k];
        let s2 = starts[k + 1];
        let e2 = ends[k + 1];
        assert(0 <= s1 < e <= s2 < e2 <= cs.len());
        lemma_byte_offset_mono(cs, e, s2);
        lemma_byte_offset_mono(cs, s2, cs.len() as int);
    }
}

/// Each of `==`, `!=`, `<=`, `>=`, `&&`, `||` and `->` lexes as one
/// operator token whose lexeme is those two characters, and lexing goes on
/// right after it. (Given that the flags do not call its first character
/// alphabetic, which `char::is_alphabetic` does not.)
pub proof fn two_char_operators_lex_whole(fl: CharFlags, cs: Seq<char>, s: int, a: char, b: char)
    requires
        0 <= s,
        s + 1 < cs.len(),
        cs[s] == a,
        cs[s + 1] == b,
        (a == '=' && b == '=') || (a == '!' && b == '=') || (a == '<' && b == '=') || (a == '>'
            && b == '=') || (a == '&' && b == '&') || (a == '|' && b == '|') || (a == '-' && b
            == '>'),
        !(0 <= s < fl.alphabetic.len() && fl.alphabetic[s]),
    ensures
        lex_from(fl, cs, s) == (
            seq![token_at(cs, TokenKindView::Operator, s, s + 2)] + lex_from(fl, cs, s + 2).0,
            lex_from(fl, cs, s + 2).1,
        ),
        token_at(cs, TokenKindView::Operator, s, s + 2).lexeme == seq![a, b],
{
    assert(!char_whitespace(a));
    assert(whitespace_end(cs, s) == s);
    assert(trivia_end(cs, s) == s);
    let sc = scan_token(fl, cs, s);
    assert(sc == Scanned { kind: TokenKindView::Operator, end: s + 2, errors: seq![] });
    assert(errors_at(cs, s, sc.errors) =~= Seq::<LexError>::empty());
    let rest = lex_from(fl, cs, s + 2);
    assert(errors_at(cs, s, sc.errors) + rest.1 =~= rest.1);
    assert(cs.subrange(s, s + 2) =~= seq![a, b]);
}

/// Each of `+ - * / % = < > ! & | ^` followed by a character other than
/// `=`, `&`, `|`, `>` and `/` (or by nothing) lexes as an operator token of
/// its own, and lexing goes on right after it. (Given that the flags do
/// not call it alphabetic.)
pub proof fn operator_chars_lex_alone(fl: CharFlags, cs: Seq<char>, s: int, c: char)
    requires
        0 <= s < cs.len(),
        cs[s] == c,
        c == '+' || c == '-' || c == '*' || c == '/' || c == '%' || c == '=' || c == '<' || c
            == '>' || c == '!' || c == '&' || c == '|' || c == '^',
        s + 1 < cs.len() ==> (cs[s + 1] != '=' && cs[s + 1] != '&' && cs[s + 1] != '|' && cs[s
            + 1] != '>' && cs[s + 1] != '/'),
        !(0 <= s < fl.alphabetic.len() && fl.alphabetic[s]),
    ensures
        lex_from(fl, cs, s) == (
            seq![token_at(cs, TokenKindView::Operator, s, s + 1)] + lex_from(fl, cs, s + 1).0,
            lex_from(fl, cs, s + 1).1,
        ),
        token_at(cs, TokenKindView::Operator, s, s + 1).lexeme == seq![c],
{
    assert(!char_whitespace(c));
    assert(whitespace_end(cs, s) == s);
    assert(trivia_end(cs, s) == s);
    let sc = scan_token(fl, cs, s);
    assert(sc == Scanned { kind: TokenKindView::Operator, end: s + 1, errors: seq![] });
    assert(errors_at(cs, s, sc.errors) =~= Seq::<LexError>::empty());
    let rest = lex_from(fl, cs, s + 1);
    assert(errors_at(cs, s, sc.errors) + rest.1 =~= rest.1);
    assert(cs.subrange(s, s + 1) =~= seq![c]);
}

/// Each of `( ) { } [ ] ; , : .` lexes as a delimiter token of its own, and
/// lexing goes on right after it. (Given that the flags do not call it
/// alphabetic.)
pub proof fn delimiters_lex_alone(fl: CharFlags, cs: Seq<char>, s: int, c: char)
    requires
        0 <= s < cs.len(),
        cs[s] == c,
        c == '(' || c == ')' || c == '{' || c == '}' || c == '[' || c == ']' || c == ';' || c
            == ',' || c == ':' || c == '.',
        !(0 <= s < fl.alphabetic.len() && fl.alphabetic[s]),
    ensures
        lex_from(fl, cs, s) == (
            seq![token_at(cs, TokenKindView::Delimiter, s, s + 1)] + lex_from(fl, cs, s + 1).0,
            lex_from(fl, cs, s + 1).1,
        ),
        token_at(cs, TokenKindView::Delimiter, s, s + 1).lexeme == seq![c],
{
    assert(!char_whitespace(c));
    assert(whitespace_end(cs, s) == s);
    assert(trivia_end(cs, s) == s);
    let sc = scan_token(fl, cs, s);
    assert(sc == Scanned { kind: TokenKindView::Delimiter, end: s + 1, errors: seq![] });
    assert(errors_at(cs, s, sc.errors) =~= Seq::<LexError>::empty());
    let rest = lex_from(fl, cs, s + 1);
    assert(errors_at(cs, s, sc.errors) + rest.1 =~= rest.1);
    assert(cs.subrange(s, s + 1) =~= seq![c]);
}

/// A word (an identifier start, then identifier characters as far as they
/// go) is one lexeme: `true` and `false` are boolean literals; `fn`, `if`,
/// `else`, `struct`, `enum`, `let`, `mut`, `return`, `loop`, `while`,
/// `for`, `in`, `match`, `use`, `pub`, `mod`, `impl`, `self`, `Self`,
/// `type` and `where` are keywords; any other word is an identifier.
pub proof fn words_lex_whole(fl: CharFlags, cs: Seq<char>, s: int)
    requires
        0 <= s < cs.len(),
        ident_start(fl, cs, s),
        !('0' <= cs[s] <= '9'),
        cs[s] != '"',
        cs[s] != '\'',
    ensures
        ({
            let e = ident_end(fl, cs, s + 1);
            let w = cs.subrange(s, e);
            let sc = scan_token(fl, cs, s);
            &&& sc.end == e
            &&& sc.errors.len() == 0
            &&& sc.kind == if w == "true"@ {
                TokenKindView::Literal(LiteralView::Bool(true))
            } else if w == "false"@ {
                TokenKindView::Literal(LiteralView::Bool(false))
            } else if w == "fn"@ || w == "if"@ || w == "else"@ || w == "struct"@ || w == "enum"@
                || w == "let"@ || w == "mut"@ || w == "return"@ || w == "loop"@ || w == "while"@
                || w == "for"@ || w == "in"@ || w == "match"@ || w == "use"@ || w == "pub"@ || w
                == "mod"@ || w == "impl"@ || w == "self"@ || w == "Self"@ || w == "type"@ || w
                == "where"@ {
                TokenKindView::Keyword
            } else {
                TokenKindView::Identifier
            }
        }),
{
}

/// The escapes: in a string literal `"\c"` and in a character literal
/// `'\c'`, for `c` one of `n t r 0 \ " '`, stand for a newline, a tab, a
/// carriage return, NUL, a backslash, a double quote and a single quote;
/// each literal is one lexeme of four characters, with no error.
pub proof fn escapes(fl: CharFlags, cs: Seq<char>, s: int, c: char, u: char)
    requires
        0 <= s,
        s + 3 < cs.len(),
        cs[s] == '"' || cs[s] == '\'',
        cs[s + 1] == '\\',
        cs[s + 2] == c,
        cs[s + 3] == cs[s],
        (c == 'n' && u == '\n') || (c == 't' && u == '\t') || (c == 'r' && u == '\r') || (c == '0'
            && u == '\0') || (c == '\\' && u == '\\') || (c == '"' && u == '"') || (c == '\''
            && u == '\''),
    ensures
        scan_token(fl, cs, s).kind == TokenKindView::Literal(
            if cs[s] == '"' {
                LiteralView::Str(seq![u])
            } else {
                LiteralView::Char(u)
            },
        ),
        scan_token(fl, cs, s).end == s + 4,
        scan_token(fl, cs, s).errors.len() == 0,
{
    if cs[s] == '"' {
        assert(string_body(cs, s + 3) == StringBody {
            closed: true,
            value: seq![],
            bad: seq![],
            end: s + 4,
        });
        assert(string_body(cs, s + 1).value =~= seq![u]);
    }
}

/// Reading a numeral back: the decimal numeral that values are shown with
/// is made of ASCII digits, starts with `0` only when it is `0`, and has
/// the value it was made from.
pub proof fn numerals_read_back(n: nat)
    ensures
        forall|i: int| 0 <= i < nat_digits(n).len() ==> ascii_digit(#[trigger] nat_digits(n)[i]),
        nat_digits(n)[0] == '0' <==> n == 0,
        digits_value(nat_digits(n)) == n,
    decreases n,
{
    if n >= 10 {
        numerals_read_back(n / 10);
        let s = nat_digits(n / 10);
        let d = n % 10;
        assert(nat_digits(n) == s.push(digit_char(d as int)));
        assert(nat_digits(n).drop_last() =~= s);
        assert(digit_char(d as int) as int == '0' as int + d);
        assert(n == (n / 10) * 10 + d) by (nonlinear_arith)
            requires
                d == n % 10,
        ;
        assert(digits_value(nat_digits(n)) == digits_value(s) * 10 + d);
        assert(digits_value(s) == n / 10);
        assert(digits_value(nat_digits(n)) == n);
        assert(nat_digits(n)[0] == s[0]);
        assert(n / 10 != 0);
    } else {
        assert(digit_char(n as int) as int == '0' as int + n);
        assert(nat_digits(n).drop_last() =~= Seq::<char>::empty());
        assert(digits_value(Seq::<char>::empty()) == 0);
        assert(digits_value(nat_digits(n)) == n);
    }
}

proof fn lemma_scan_invalid(fl: CharFlags, cs: Seq<char>, s: int)
    requires
        0 <= s < cs.len(),
        scan_token(fl, cs, s).kind is Invalid,
    ensures
        scan_token(fl, cs, s).errors.len() > 0,
        scan_token(fl, cs, s).errors[0].end == scan_token(fl, cs, s).end,
{
    let c = cs[s];
    if c == '"' {
        let b = string_body(cs, s + 1);
        assert(scan_token(fl, cs, s) == scan_string_spec(cs, s));
        assert(scan_token(fl, cs, s).errors.len() > 0 && scan_token(fl, cs, s).errors[0].end == scan_token(fl, cs, s).end);
    } else if c == '\'' {
        let (content, err, p) = char_content(cs, s + 1);
        let (err2, q) = char_close(cs, err, p);
        lemma_scan_char(cs, s, content, err, p, err2, q);
        assert(scan_token(fl, cs, s) == scan_char_spec(cs, s));
        assert(scan_token(fl, cs, s).errors.len() > 0 && scan_token(fl, cs, s).errors[0].end == scan_token(fl, cs, s).end);
    } else if ascii_digit(c) {
        assert(scan_token(fl, cs, s) == scan_number_spec(cs, s));
        assert(scan_token(fl, cs, s).errors.len() > 0 && scan_token(fl, cs, s).errors[0].end == scan_token(fl, cs, s).end);
    } else if ident_start(fl, cs, s) {
        assert(scan_token(fl, cs, s) == scan_ident_spec(fl, cs, s));
        assert(scan_token(fl, cs, s).errors.len() > 0 && scan_token(fl, cs, s).errors[0].end == scan_token(fl, cs, s).end);
    } else if operator_char(c) {
        assert(scan_token(fl, cs, s) == scan_operator_spec(cs, s));
        assert(scan_token(fl, cs, s).errors.len() > 0 && scan_token(fl, cs, s).errors[0].end == scan_token(fl, cs, s).end);
    } else if !delimiter_char(c) {
        lemma_scan_unexpected(fl, cs, s, c);
    } else {
        lemma_scan_delimiter(fl, cs, s, c);
    }
}

/// `scan_token` on a delimiter.
proof fn lemma_scan_delimiter(fl: CharFlags, cs: Seq<char>, s: int, c: char)
    requires
        0 <= s < cs.len(),
        cs[s] == c,
        c != '"',
        c != '\'',
        !ascii_digit(c),
        !ident_start(fl, cs, s),
        !operator_char(c),
        delimiter_char(c),
    ensures
        scan_token(fl, cs, s).kind == TokenKindView::Delimiter,
{
}

proof fn lemma_invalid_reported_from(fl: CharFlags, cs: Seq<char>, i: int)
    requires
        0 <= i <= cs.len(),
    ensures
        ({
            let (toks, errs) = lex_from(fl, cs, i);
            forall|k: int|
                0 <= k < toks.len() && (#[trigger] toks[k]).kind is Invalid ==> exists|m: int|
                    0 <= m < errs.len() && (#[trigger] errs[m]).span == toks[k].span
        }),
    decreases cs.len() - i,
{
    lemma_trivia_end(cs, i);
    let j = trivia_end(cs, i);
    if j < cs.len() {
        lemma_scan_progress(fl, cs, j);
        let sc = scan_token(fl, cs, j);
        lemma_invalid_reported_from(fl, cs, sc.end);
        let (toks, errs) = lex_from(fl, cs, i);
        let (rt, re) = lex_from(fl, cs, sc.end);
        let here = errors_at(cs, j, sc.errors);
        assert(toks == seq![token_at(cs, sc.kind, j, sc.end)] + rt);
        assert(errs == here + re);
        assert forall|k: int| 0 <= k < toks.len() && (#[trigger] toks[k]).kind is Invalid implies exists|m: int|
            0 <= m < errs.len() && (#[trigger] errs[m]).span == toks[k].span by {
            if k == 0 {
                lemma_scan_invalid(fl, cs, j);
                assert(errs[0] == here[0]);
                assert(errs[0].span == toks[0].span);
            } else {
                assert(toks[k] == rt[k - 1]);
                let m0 = choose|m: int| 0 <= m < re.len() && (#[trigger] re[m]).span == rt[k - 1].span;
                assert(errs[here.len() + m0] == re[m0]);
            }
        }
    }
}

/// No bad lexeme passes silently: for every `Invalid` token there is an
/// error with the token's span.
pub proof fn invalid_tokens_are_reported(fl: CharFlags, cs: Seq<char>)
    ensures
        ({
            let (toks, errs) = lex_with(fl, cs);
            forall|k: int|
                0 <= k < toks.len() && (#[trigger] toks[k]).kind is Invalid ==> exists|m: int|
                    0 <= m < errs.len() && (#[trigger] errs[m]).span == toks[k].span
        }),
{
    lemma_invalid_reported_from(fl, cs, 0);
}

/// Where each error of `lex_from(fl, cs, i)` starts, as a character position:
/// at the start of the lexeme it belongs to, rising from `i`.
proof fn lemma_error_positions(fl: CharFlags, cs: Seq<char>, i: int) -> (starts: Seq<int>)
    requires
        0 <= i <= cs.len(),
    ensures
        ({
            let errs = lex_from(fl, cs, i).1;
            &&& starts.len() == errs.len()
            &&& forall|m: int|
                0 <= m < errs.len() ==> i <= #[trigger] starts[m] < cs.len() && errs[m].span.start
                    == byte_offset(cs, starts[m]) as usize
            &&& forall|m: int| 0 <= m < errs.len() - 1 ==> #[trigger] starts[m] <= starts[m + 1]
        }),
    decreases cs.len() - i,
{
    lemma_trivia_end(cs, i);
    let j = trivia_end(cs, i);
    if j >= cs.len() {
        seq![]
    } else {
        lemma_scan_progress(fl, cs, j);
        let sc = scan_token(fl, cs, j);
        let rest = lemma_error_positions(fl, cs, sc.end);
        let here = errors_at(cs, j, sc.errors);
        let starts = Seq::new(here.len(), |m: int| j) + rest;
        let errs = lex_from(fl, cs, i).1;
        assert(errs == here + lex_from(fl, cs, sc.end).1);
        assert forall|m: int| 0 <= m < errs.len() implies i <= #[trigger] starts[m] < cs.len()
            && errs[m].span.start == byte_offset(cs, starts[m]) as usize by {
            if m < here.len() {
                assert(errs[m] == here[m]);
            } else {
                assert(errs[m] == lex_from(fl, cs, sc.end).1[m - here.len()]);
                assert(starts[m] == rest[m - here.len()]);
            }
        }
        assert forall|m: int| 0 <= m < errs.len() - 1 implies #[trigger] starts[m] <= starts[m + 1] by {
            if m + 1 < here.len() {
            } else if m + 1 == here.len() {
                assert(starts[m + 1] == rest[0]);
            } else {
                assert(starts[m] == rest[m - here.len()]);
                assert(starts[m + 1] == rest[m + 1 - here.len()]);
            }
        }
        starts
    }
}

/// Errors come out in source order: each error's span starts where or
/// after the previous one's does.
pub proof fn errors_in_source_order(fl: CharFlags, cs: Seq<char>)
    requires
        encode_utf8(cs).len() <= usize::MAX,
    ensures
        ({
            let errs = lex_with(fl, cs).1;
            forall|m: int|
                0 <= m < errs.len() - 1 ==> (#[trigger] errs[m]).span.start <= errs[m + 1].span.start
        }),
{
    let errs = lex_with(fl, cs).1;
    let starts = lemma_error_positions(fl, cs, 0);
    assert(byte_offset(cs, cs.len() as int) == encode_utf8(cs).len()) by {
        assert(cs.take(cs.len() as int) =~= cs);
    }
    assert forall|m: int| 0 <= m < errs.len() - 1 implies (#[trigger] errs[m]).span.start
        <= errs[m + 1].span.start by {
        let (a, b) = (starts[m], starts[m + 1]);
        assert(0 <= a <= b < cs.len());
        lemma_byte_offset_mono(cs, a, b);
        lemma_byte_offset_mono(cs, b, cs.len() as int);
    }
}

} // verus!
