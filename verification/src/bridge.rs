//! From the lexer's tokens to the parser's.
//!
//! The lexer knows more than the grammar does (floats, strings, chars and
//! keywords such as `struct` or `loop`). Each lexer token is mapped to the
//! parser token it stands for; the first one that has none stops the
//! conversion with a message that names it. A trailing `Eof` is appended.
use vstd::prelude::*;

use crate::builtins::same_text;
use crate::lexer::{Literal, Token as LexToken, TokenKind, TokenKindView, LiteralView, TokenView};
use crate::parser::Token;
use crate::text::{int_decimal, push_decimal};

verus! {

/// The parser token of a keyword that the grammar supports.
pub open spec fn keyword_token(w: Seq<char>) -> Option<Token> {
    if w == "fn"@ {
        Some(Token::Fn)
    } else if w == "let"@ {
        Some(Token::Let)
    } else if w == "mut"@ {
        Some(Token::Mut)
    } else if w == "if"@ {
        Some(Token::If)
    } else if w == "else"@ {
        Some(Token::Else)
    } else if w == "while"@ {
        Some(Token::While)
    } else if w == "return"@ {
        Some(Token::Return)
    } else {
        None
    }
}

/// The parser token of a delimiter that the grammar supports.
pub open spec fn delimiter_token(w: Seq<char>) -> Option<Token> {
    if w == "("@ {
        Some(Token::LParen)
    } else if w == ")"@ {
        Some(Token::RParen)
    } else if w == "{"@ {
        Some(Token::LBrace)
    } else if w == "}"@ {
        Some(Token::RBrace)
    } else if w == ","@ {
        Some(Token::Comma)
    } else if w == ":"@ {
        Some(Token::Colon)
    } else if w == ";"@ {
        Some(Token::Semicolon)
    } else {
        None
    }
}

/// The parser token of an operator that the grammar supports.
pub open spec fn operator_token(w: Seq<char>) -> Option<Token> {
    if w == "+"@ {
        Some(Token::Plus)
    } else if w == "-"@ {
        Some(Token::Minus)
    } else if w == "*"@ {
        Some(Token::Star)
    } else if w == "/"@ {
        Some(Token::Slash)
    } else if w == "%"@ {
        Some(Token::Percent)
    } else if w == "="@ {
        Some(Token::Eq)
    } else if w == "=="@ {
        Some(Token::EqEq)
    } else if w == "!="@ {
        Some(Token::NotEq)
    } else if w == "<"@ {
        Some(Token::Lt)
    } else if w == ">"@ {
        Some(Token::Gt)
    } else if w == "<="@ {
        Some(Token::LtEq)
    } else if w == ">="@ {
        Some(Token::GtEq)
    } else if w == "&&"@ {
        Some(Token::AndAnd)
    } else if w == "||"@ {
        Some(Token::OrOr)
    } else if w == "!"@ {
        Some(Token::Bang)
    } else if w == "->"@ {
        Some(Token::Arrow)
    } else {
        None
    }
}

/// How a parser token is written in source text (an integer in decimal,
/// `Eof` as nothing).
pub open spec fn spelling(t: Token) -> Seq<char> {
    match t {
        Token::Int(n) => int_decimal(n as int),
        Token::Ident(name) => name@,
        Token::True => "true"@,
        Token::False => "false"@,
        Token::Fn => "fn"@,
        Token::Let => "let"@,
        Token::Mut => "mut"@,
        Token::If => "if"@,
        Token::Else => "else"@,
        Token::While => "while"@,
        Token::Return => "return"@,
        Token::TyI32 => "i32"@,
        Token::TyBool => "bool"@,
        Token::LParen => "("@,
        Token::RParen => ")"@,
        Token::LBrace => "{"@,
        Token::RBrace => "}"@,
        Token::Comma => ","@,
        Token::Colon => ":"@,
        Token::Semicolon => ";"@,
        Token::Arrow => "->"@,
        Token::Plus => "+"@,
        Token::Minus => "-"@,
        Token::Star => "*"@,
        Token::Slash => "/"@,
        Token::Percent => "%"@,
        Token::Eq => "="@,
        Token::EqEq => "=="@,
        Token::NotEq => "!="@,
        Token::Lt => "<"@,
        Token::Gt => ">"@,
        Token::LtEq => "<="@,
        Token::GtEq => ">="@,
        Token::AndAnd => "&&"@,
        Token::OrOr => "||"@,
        Token::Bang => "!"@,
        Token::Eof => Seq::empty(),
    }
}

/// Why a lexer token has no parser token, or `None` when it has one.
pub open spec fn bridge_error(t: TokenView) -> Option<Seq<char>> {
    match t.kind {
        TokenKindView::Literal(LiteralView::Int(_)) => None,
        TokenKindView::Literal(LiteralView::Bool(_)) => None,
        TokenKindView::Literal(_) => Some(
            "unsupported literal `"@ + t.lexeme
                + "` (only i32 and bool literals are supported)"@,
        ),
        TokenKindView::Identifier => None,
        TokenKindView::Keyword => if keyword_token(t.lexeme) is Some {
            None
        } else {
            Some("`"@ + t.lexeme + "` is not supported by this language subset"@)
        },
        TokenKindView::Delimiter => if delimiter_token(t.lexeme) is Some {
            None
        } else {
            Some("delimiter `"@ + t.lexeme + "` is not supported by this language subset"@)
        },
        TokenKindView::Operator => if operator_token(t.lexeme) is Some {
            None
        } else {
            Some("operator `"@ + t.lexeme + "` is not supported by this language subset"@)
        },
        TokenKindView::Invalid => Some(
            "invalid token `"@ + t.lexeme + "` at line "@ + int_decimal(t.span.line as int),
        ),
    }
}

/// Whether the parser token `p` is what the lexer token `t` stands for.
pub open spec fn bridges_to(t: TokenView, p: Token) -> bool {
    match t.kind {
        TokenKindView::Literal(LiteralView::Int(n)) => p == Token::Int(n),
        TokenKindView::Literal(LiteralView::Bool(b)) => p == (if b {
            Token::True
        } else {
            Token::False
        }),
        TokenKindView::Identifier => if t.lexeme == "i32"@ {
            p == Token::TyI32
        } else if t.lexeme == "bool"@ {
            p == Token::TyBool
        } else {
            p matches Token::Ident(name) && name@ == t.lexeme
        },
        TokenKindView::Keyword => keyword_token(t.lexeme) == Some(p),
        TokenKindView::Delimiter => delimiter_token(t.lexeme) == Some(p),
        TokenKindView::Operator => operator_token(t.lexeme) == Some(p),
        _ => false,
    }
}

/// A keyword, delimiter, operator or identifier reaches the parser as the
/// token that is written as its lexeme: `!=` as `NotEq`, `==` as `EqEq`,
/// `i32` as `TyI32`, `x` as `Ident("x")`, and so on.
pub proof fn bridging_keeps_spelling(t: TokenView, p: Token)
    requires
        t.kind is Keyword || t.kind is Delimiter || t.kind is Operator || t.kind is Identifier,
        bridges_to(t, p),
    ensures
        spelling(p) == t.lexeme,
{
}

/// Two keywords, delimiters, operators or identifiers with different
/// lexemes never reach the parser as the same token.
pub proof fn bridging_keeps_lexemes_apart(t1: TokenView, t2: TokenView, p: Token)
    requires
        t1.kind is Keyword || t1.kind is Delimiter || t1.kind is Operator || t1.kind is Identifier,
        t2.kind is Keyword || t2.kind is Delimiter || t2.kind is Operator || t2.kind is Identifier,
        bridges_to(t1, p),
        bridges_to(t2, p),
    ensures
        t1.lexeme == t2.lexeme,
{
    bridging_keeps_spelling(t1, p);
    bridging_keeps_spelling(t2, p);
}

/// `out` is the parser token sequence for the lexer tokens `ts`: one token
/// for each, then `Eof`.
pub open spec fn bridged(ts: Seq<TokenView>, out: Seq<Token>) -> bool {
    &&& out.len() == ts.len() + 1
    &&& forall|i: int| 0 <= i < ts.len() ==> bridges_to(ts[i], #[trigger] out[i])
    &&& out[ts.len() as int] == Token::Eof
}

/// `Eof` stands for no lexer token: a bridged sequence holds it once, at
/// its end.
pub proof fn bridged_eof_only_at_end(ts: Seq<TokenView>, out: Seq<Token>)
    requires
        bridged(ts, out),
    ensures
        forall|i: int| 0 <= i < out.len() ==> (out[i] == Token::Eof <==> i == ts.len()),
{
    assert forall|i: int| 0 <= i < out.len() implies (out[i] == Token::Eof <==> i == ts.len()) by {
        if i < ts.len() {
            assert(bridges_to(ts[i], out[i]));
        }
    }
}

/// The message of the first token in `ts` that has no parser token.
pub open spec fn first_bridge_error(ts: Seq<TokenView>) -> Option<Seq<char>>
    decreases ts.len(),
{
    if ts.len() == 0 {
        None
    } else if bridge_error(ts[0]) is Some {
        bridge_error(ts[0])
    } else {
        first_bridge_error(ts.drop_first())
    }
}

/// `first_bridge_error` of `ts[..i+1]`, given that of `ts[..i]` is `None`.
proof fn lemma_first_bridge_error_step(ts: Seq<TokenView>, i: int)
    requires
        0 <= i < ts.len(),
        first_bridge_error(ts.take(i)) is None,
    ensures
        first_bridge_error(ts.take(i + 1)) == bridge_error(ts[i]),
        bridge_error(ts[i]) is Some ==> first_bridge_error(ts) == bridge_error(ts[i]),
    decreases i,
{
    if i > 0 {
        assert(ts.take(i).drop_first() =~= ts.drop_first().take(i - 1));
        assert(ts.take(i + 1).drop_first() =~= ts.drop_first().take(i));
        assert(ts.take(i)[0] == ts[0]);
        assert(ts.take(i + 1)[0] == ts[0]);
        assert(bridge_error(ts[0]) is None);
        lemma_first_bridge_error_step(ts.drop_first(), i - 1);
        assert(ts.drop_first()[i - 1] == ts[i]);
        assert(first_bridge_error(ts.take(i + 1)) == first_bridge_error(ts.drop_first().take(i)));
    } else {
        assert(ts.take(1).drop_first() =~= Seq::<TokenView>::empty());
        assert(ts.take(1)[0] == ts[0]);
        assert(first_bridge_error(ts.take(1).drop_first()) is None);
        assert(first_bridge_error(ts.take(1)) == bridge_error(ts[0]));
    }
}

/// The parser token for a keyword, delimiter or operator lexeme, in
/// the order of the three tables above.
fn keyword_of(w: &str) -> (r: Option<Token>)
    ensures
        r == keyword_token(w@),
{
    if same_text(w, "fn") {
        Some(Token::Fn)
    } else if same_text(w, "let") {
        Some(Token::Let)
    } else if same_text(w, "mut") {
        Some(Token::Mut)
    } else if same_text(w, "if") {
        Some(Token::If)
    } else if same_text(w, "else") {
        Some(Token::Else)
    } else if same_text(w, "while") {
        Some(Token::While)
    } else if same_text(w, "return") {
        Some(Token::Return)
    } else {
        None
    }
}

fn delimiter_of(w: &str) -> (r: Option<Token>)
    ensures
        r == delimiter_token(w@),
{
    if same_text(w, "(") {
        Some(Token::LParen)
    } else if same_text(w, ")") {
        Some(Token::RParen)
    } else if same_text(w, "{") {
        Some(Token::LBrace)
    } else if same_text(w, "}") {
        Some(Token::RBrace)
    } else if same_text(w, ",") {
        Some(Token::Comma)
    } else if same_text(w, ":") {
        Some(Token::Colon)
    } else if same_text(w, ";") {
        Some(Token::Semicolon)
    } else {
        None
    }
}

fn operator_of(w: &str) -> (r: Option<Token>)
    ensures
        r == operator_token(w@),
{
    if same_text(w, "+") {
        Some(Token::Plus)
    } else if same_text(w, "-") {
        Some(Token::Minus)
    } else if same_text(w, "*") {
        Some(Token::Star)
    } else if same_text(w, "/") {
        Some(Token::Slash)
    } else if same_text(w, "%") {
        Some(Token::Percent)
    } else if same_text(w, "=") {
        Some(Token::Eq)
    } else if same_text(w, "==") {
        Some(Token::EqEq)
    } else if same_text(w, "!=") {
        Some(Token::NotEq)
    } else if same_text(w, "<") {
        Some(Token::Lt)
    } else if same_text(w, ">") {
        Some(Token::Gt)
    } else if same_text(w, "<=") {
        Some(Token::LtEq)
    } else if same_text(w, ">=") {
        Some(Token::GtEq)
    } else if same_text(w, "&&") {
        Some(Token::AndAnd)
    } else if same_text(w, "||") {
        Some(Token::OrOr)
    } else if same_text(w, "!") {
        Some(Token::Bang)
    } else if same_text(w, "->") {
        Some(Token::Arrow)
    } else {
        None
    }
}

/// `prefix`, then `w`, then `suffix`.
fn quoted(prefix: &str, w: &str, suffix: &str) -> (r: String)
    ensures
        r@ == prefix@ + w@ + suffix@,
{
    let mut s = String::from_str(prefix);
    s.append(w);
    s.append(suffix);
    s
}

/// The parser token of one lexer token, or why it has none.
fn bridge_one(tok: &LexToken) -> (r: Result<Token, String>)
    ensures
        match r {
            Ok(p) => bridge_error(tok@) is None && bridges_to(tok@, p),
            Err(m) => bridge_error(tok@) == Some(m@),
        },
{
    let w = tok.lexeme.as_str();
    match &tok.kind {
        TokenKind::Literal(Literal::Int(n)) => Ok(Token::Int(*n)),
        TokenKind::Literal(Literal::Bool(true)) => Ok(Token::True),
        TokenKind::Literal(Literal::Bool(false)) => Ok(Token::False),
        TokenKind::Literal(_) => Err(
            quoted("unsupported literal `", w, "` (only i32 and bool literals are supported)"),
        ),
        TokenKind::Identifier => {
            if same_text(w, "i32") {
                Ok(Token::TyI32)
            } else if same_text(w, "bool") {
                Ok(Token::TyBool)
            } else {
                Ok(Token::Ident(tok.lexeme.clone()))
            }
        },
        TokenKind::Keyword => match keyword_of(w) {
            Some(p) => Ok(p),
            None => Err(quoted("`", w, "` is not supported by this language subset")),
        },
        TokenKind::Delimiter => match delimiter_of(w) {
            Some(p) => Ok(p),
            None => Err(quoted("delimiter `", w, "` is not supported by this language subset")),
        },
        TokenKind::Operator => match operator_of(w) {
            Some(p) => Ok(p),
            None => Err(quoted("operator `", w, "` is not supported by this language subset")),
        },
        TokenKind::Invalid => {
            let mut s = quoted("invalid token `", w, "` at line ");
            push_decimal(&mut s, tok.span.line as i64);
            Err(s)
        },
    }
}

/// Converts lexer tokens into parser tokens and appends `Eof`; fails with
/// the message of the first token outside the supported subset.
pub fn bridge_tokens(tokens: Vec<LexToken>) -> (r: Result<Vec<Token>, String>)
    ensures
        ({
            let ts = tokens@.map_values(|t: LexToken| t@);
            match r {
                Ok(out) => first_bridge_error(ts) is None && bridged(ts, out@),
                Err(m) => first_bridge_error(ts) == Some(m@),
            }
        }),
{
    let ghost ts = tokens@.map_values(|t: LexToken| t@);
    let mut out: Vec<Token> = Vec::new();
    let mut i: usize = 0;
    while i < tokens.len()
        invariant
            ts == tokens@.map_values(|t: LexToken| t@),
            i <= tokens.len(),
            out.len() == i,
            first_bridge_error(ts.take(i as int)) is None,
            forall|j: int| 0 <= j < i ==> bridges_to(ts[j], #[trigger] out@[j]),
        decreases tokens.len() - i,
    {
        proof {
            lemma_first_bridge_error_step(ts, i as int);
        }
        match bridge_one(&tokens[i]) {
            Ok(p) => {
                out.push(p);
            },
            Err(m) => {
                return Err(m);
            },
        }
        i = i + 1;
    }
    proof {
        assert(ts.take(i as int) =~= ts);
    }
    out.push(Token::Eof);
    Ok(out)
}

} // verus!
