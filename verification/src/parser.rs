//! Recursive-descent parser: tokens to a `Program`.
//!
//! Grammar, lowest to highest precedence:
//!
//! ```text
//!   program     := item*
//!   item        := fn_decl
//!   fn_decl     := "fn" IDENT "(" params? ")" ("->" type)? block
//!   params      := param ("," param)*
//!   param       := IDENT ":" type
//!   type        := "i32" | "bool" | "(" ")"
//!   block       := "{" stmt* expr? "}"            -- a last expr is the block's value
//!   stmt        := let_stmt | "return" expr? ";" | while_stmt | expr_stmt
//!   let_stmt    := "let" "mut"? IDENT (":" type)? "=" expr ";"
//!   while_stmt  := "while" expr block
//!   expr_stmt   := expr ";"?                       -- ";" may be left out after if/{}
//!   expr        := assignment
//!   assignment  := IDENT "=" assignment | logic_or
//!   logic_or    := logic_and ("||" logic_and)*
//!   logic_and   := equality ("&&" equality)*
//!   equality    := comparison (("=="|"!=") comparison)*
//!   comparison  := term (("<"|">"|"<="|">=") term)*
//!   term        := factor (("+"|"-") factor)*
//!   factor      := unary (("*"|"/"|"%") unary)*
//!   unary       := ("-"|"!") unary | call
//!   call        := primary ("(" args? ")")*     -- only an identifier is callable
//!   args        := expr ("," expr)*
//!   primary     := INT | "true" | "false" | IDENT | "(" expr ")" | block | if_expr
//!   if_expr     := "if" expr block ("else" (block | if_expr))?
//! ```
//!
//! Conditions of `if` and `while` take no parentheses; assignment is
//! right-associative and its target must be an identifier; the parser stops
//! at the first error. Types, scopes and names are not checked here.
use vstd::prelude::*;

use crate::ast::{
    block_view, else_view, expr_view, function_view, param_view, program_view, stmt_view, BinOp, Block,
    BlockView, ElseBranch, ElseView, Expr, ExprView, FunctionDecl, FunctionView, Item, Param,
    ParamView, Program, Stmt, StmtView, Type, UnOp,
};

verus! {

/// The parser's tokens.
#[derive(Debug, Clone, PartialEq)]
pub enum Token {
    Int(i64),
    Ident(String),
    True,
    False,
    Fn,
    Let,
    Mut,
    If,
    Else,
    While,
    Return,
    TyI32,
    TyBool,
    LParen,
    RParen,
    LBrace,
    RBrace,
    Comma,
    Colon,
    Semicolon,
    Arrow,
    Plus,
    Minus,
    Star,
    Slash,
    Percent,
    Eq,
    EqEq,
    NotEq,
    Lt,
    Gt,
    LtEq,
    GtEq,
    AndAnd,
    OrOr,
    Bang,
    Eof,
}

#[derive(Debug)]
pub struct ParseError {
    pub message: String,
    pub found: Token,
    pub pos: usize,
}

/// A parse error as values: its message, the token found and its position.
pub struct SyntaxError {
    pub message: Seq<char>,
    pub found: Token,
    pub pos: int,
}

impl View for ParseError {
    type V = SyntaxError;

    open spec fn view(&self) -> SyntaxError {
        SyntaxError { message: self.message@, found: self.found, pos: self.pos as int }
    }
}

// ---------------------------------------------------------------------
// Tokens
// ---------------------------------------------------------------------

/// A token that carries no data.
pub open spec fn plain(t: Token) -> bool {
    !(t is Int) && !(t is Ident)
}

/// How `{:?}` shows a token that carries no data: its variant's name.
pub open spec fn token_name(t: Token) -> Seq<char> {
    match t {
        Token::True => "True"@,
        Token::False => "False"@,
        Token::Fn => "Fn"@,
        Token::Let => "Let"@,
        Token::Mut => "Mut"@,
        Token::If => "If"@,
        Token::Else => "Else"@,
        Token::While => "While"@,
        Token::Return => "Return"@,
        Token::TyI32 => "TyI32"@,
        Token::TyBool => "TyBool"@,
        Token::LParen => "LParen"@,
        Token::RParen => "RParen"@,
        Token::LBrace => "LBrace"@,
        Token::RBrace => "RBrace"@,
        Token::Comma => "Comma"@,
        Token::Colon => "Colon"@,
        Token::Semicolon => "Semicolon"@,
        Token::Arrow => "Arrow"@,
        Token::Plus => "Plus"@,
        Token::Minus => "Minus"@,
        Token::Star => "Star"@,
        Token::Slash => "Slash"@,
        Token::Percent => "Percent"@,
        Token::Eq => "Eq"@,
        Token::EqEq => "EqEq"@,
        Token::NotEq => "NotEq"@,
        Token::Lt => "Lt"@,
        Token::Gt => "Gt"@,
        Token::LtEq => "LtEq"@,
        Token::GtEq => "GtEq"@,
        Token::AndAnd => "AndAnd"@,
        Token::OrOr => "OrOr"@,
        Token::Bang => "Bang"@,
        Token::Eof => "Eof"@,
        _ => Seq::empty(),
    }
}

/// The token at `p`; past the end, `Eof`.
pub open spec fn tok_at(ts: Seq<Token>, p: int) -> Token {
    if 0 <= p < ts.len() {
        ts[p]
    } else {
        Token::Eof
    }
}

/// The position after consuming the token at `p` (`Eof` is never consumed).
pub open spec fn next_pos(ts: Seq<Token>, p: int) -> int {
    if tok_at(ts, p) is Eof {
        p
    } else {
        p + 1
    }
}

/// An error reported at `p`, naming the token found there.
pub open spec fn error_at(ts: Seq<Token>, p: int, message: Seq<char>) -> SyntaxError {
    SyntaxError { message, found: tok_at(ts, p), pos: p }
}

/// The error that a failed `expect(tok, ctx)` reports.
pub open spec fn expected(ts: Seq<Token>, p: int, tok: Token, ctx: Seq<char>) -> SyntaxError {
    error_at(ts, p, "expected "@ + token_name(tok) + " "@ + ctx)
}

/// A successful parse always consumes a token; this error stands in the
/// (unreachable) branches that would otherwise stall.
pub open spec fn stalled(ts: Seq<Token>, p: int) -> SyntaxError {
    error_at(ts, p, "no progress"@)
}

/// `q` is past `p`, and within the tokens.
pub open spec fn advanced(ts: Seq<Token>, p: int, q: int) -> bool {
    p < q <= ts.len()
}

/// Consumes `tok` at `p`, or reports what was expected.
pub open spec fn expect_at(ts: Seq<Token>, p: int, tok: Token, ctx: Seq<char>) -> Result<
    int,
    SyntaxError,
> {
    if tok_at(ts, p) == tok {
        Ok(next_pos(ts, p))
    } else {
        Err(expected(ts, p, tok, ctx))
    }
}

/// Consumes `tok` at `p` if it is there.
pub open spec fn match_at(ts: Seq<Token>, p: int, tok: Token) -> (bool, int) {
    if tok_at(ts, p) == tok {
        (true, next_pos(ts, p))
    } else {
        (false, p)
    }
}

pub open spec fn ident_at(ts: Seq<Token>, p: int) -> Result<(Seq<char>, int), SyntaxError> {
    match tok_at(ts, p) {
        Token::Ident(name) => Ok((name@, p + 1)),
        other => Err(
            SyntaxError { message: "expected identifier"@, found: other, pos: next_pos(ts, p) },
        ),
    }
}

pub open spec fn type_at(ts: Seq<Token>, p: int) -> Result<(Type, int), SyntaxError> {
    match tok_at(ts, p) {
        Token::TyI32 => Ok((Type::I32, p + 1)),
        Token::TyBool => Ok((Type::Bool, p + 1)),
        Token::LParen => match expect_at(ts, p + 1, Token::RParen, "to close unit type '()'"@) {
            Ok(q) => Ok((Type::Unit, q)),
            Err(e) => Err(e),
        },
        other => Err(
            SyntaxError {
                message: "expected a type (i32, bool, or ())"@,
                found: other,
                pos: next_pos(ts, p),
            },
        ),
    }
}

/// The binary operator a token stands for, at each precedence level.
pub open spec fn equality_op(t: Token) -> Option<BinOp> {
    match t {
        Token::EqEq => Some(BinOp::Eq),
        Token::NotEq => Some(BinOp::NotEq),
        _ => None,
    }
}

pub open spec fn comparison_op(t: Token) -> Option<BinOp> {
    match t {
        Token::Lt => Some(BinOp::Lt),
        Token::Gt => Some(BinOp::Gt),
        Token::LtEq => Some(BinOp::LtEq),
        Token::GtEq => Some(BinOp::GtEq),
        _ => None,
    }
}

pub open spec fn term_op(t: Token) -> Option<BinOp> {
    match t {
        Token::Plus => Some(BinOp::Add),
        Token::Minus => Some(BinOp::Sub),
        _ => None,
    }
}

pub open spec fn factor_op(t: Token) -> Option<BinOp> {
    match t {
        Token::Star => Some(BinOp::Mul),
        Token::Slash => Some(BinOp::Div),
        Token::Percent => Some(BinOp::Mod),
        _ => None,
    }
}

pub open spec fn or_op(t: Token) -> Option<BinOp> {
    if t is OrOr {
        Some(BinOp::Or)
    } else {
        None
    }
}

pub open spec fn and_op(t: Token) -> Option<BinOp> {
    if t is AndAnd {
        Some(BinOp::And)
    } else {
        None
    }
}

/// The precedence levels of binary operators, loosest first.
pub enum Level {
    Or,
    And,
    Equality,
    Comparison,
    Term,
    Factor,
}

pub open spec fn level_op(l: Level, t: Token) -> Option<BinOp> {
    match l {
        Level::Or => or_op(t),
        Level::And => and_op(t),
        Level::Equality => equality_op(t),
        Level::Comparison => comparison_op(t),
        Level::Term => term_op(t),
        Level::Factor => factor_op(t),
    }
}

pub open spec fn level_rank(l: Level) -> nat {
    match l {
        Level::Or => 20,
        Level::And => 18,
        Level::Equality => 16,
        Level::Comparison => 14,
        Level::Term => 12,
        Level::Factor => 10,
    }
}

pub open spec fn binary(op: BinOp, l: ExprView, r: ExprView) -> ExprView {
    ExprView::Binary { op, lhs: Box::new(l), rhs: Box::new(r) }
}

// ---------------------------------------------------------------------
// The grammar, as functions from a token position to a parse and the
// position after it.
// ---------------------------------------------------------------------

pub open spec fn expr_at(ts: Seq<Token>, p: int) -> Result<(ExprView, int), SyntaxError>
    decreases ts.len() - p, 22nat,
{
    assignment_at(ts, p)
}

pub open spec fn assignment_at(ts: Seq<Token>, p: int) -> Result<(ExprView, int), SyntaxError>
    decreases ts.len() - p, 21nat,
{
    match level_at(ts, p, Level::Or) {
        Err(e) => Err(e),
        Ok((lhs, q)) => if tok_at(ts, q) is Eq {
            if !(p <= q < ts.len()) {
                Err(stalled(ts, p))
            } else {
                match assignment_at(ts, q + 1) {
                    Err(e) => Err(e),
                    Ok((value, r)) => match lhs {
                        ExprView::Ident(name) => Ok(
                            (ExprView::Assign { name, value: Box::new(value) }, r),
                        ),
                        _ => Err(error_at(ts, r, "invalid assignment target"@)),
                    },
                }
            }
        } else {
            Ok((lhs, q))
        },
    }
}

/// One precedence level: an operand of the next level, then any number of
/// `op operand` pairs, grouped to the left.
pub open spec fn level_at(ts: Seq<Token>, p: int, l: Level) -> Result<(ExprView, int), SyntaxError>
    decreases ts.len() - p, level_rank(l),
{
    match operand_at(ts, p, l) {
        Err(e) => Err(e),
        Ok((lhs, q)) => if !advanced(ts, p, q) {
            Err(stalled(ts, p))
        } else {
            level_rest(ts, q, l, lhs)
        },
    }
}

/// The operand parser of a level: the next tighter level, or `unary`.
pub open spec fn operand_at(ts: Seq<Token>, p: int, l: Level) -> Result<(ExprView, int), SyntaxError>
    decreases ts.len() - p, (level_rank(l) - 1) as nat,
{
    match l {
        Level::Or => level_at(ts, p, Level::And),
        Level::And => level_at(ts, p, Level::Equality),
        Level::Equality => level_at(ts, p, Level::Comparison),
        Level::Comparison => level_at(ts, p, Level::Term),
        Level::Term => level_at(ts, p, Level::Factor),
        Level::Factor => unary_at(ts, p),
    }
}

/// The `op operand` pairs of a level after the left operand `lhs`.
pub open spec fn level_rest(ts: Seq<Token>, p: int, l: Level, lhs: ExprView) -> Result<
    (ExprView, int),
    SyntaxError,
>
    decreases ts.len() - p, (level_rank(l) - 1) as nat,
{
    match level_op(l, tok_at(ts, p)) {
        None => Ok((lhs, p)),
        Some(op) => match operand_at(ts, p + 1, l) {
            Err(e) => Err(e),
            Ok((rhs, q)) => if !advanced(ts, p, q) {
                Err(stalled(ts, p))
            } else {
                level_rest(ts, q, l, binary(op, lhs, rhs))
            },
        },
    }
}

pub open spec fn unary_at(ts: Seq<Token>, p: int) -> Result<(ExprView, int), SyntaxError>
    decreases ts.len() - p, 8nat,
{
    let op = match tok_at(ts, p) {
        Token::Minus => Some(UnOp::Neg),
        Token::Bang => Some(UnOp::Not),
        _ => None,
    };
    match op {
        Some(op) => match unary_at(ts, p + 1) {
            Err(e) => Err(e),
            Ok((e, q)) => Ok((ExprView::Unary { op, expr: Box::new(e) }, q)),
        },
        None => call_at(ts, p),
    }
}

pub open spec fn call_at(ts: Seq<Token>, p: int) -> Result<(ExprView, int), SyntaxError>
    decreases ts.len() - p, 7nat,
{
    match primary_at(ts, p) {
        Err(e) => Err(e),
        Ok((e, q)) => if tok_at(ts, q) is LParen {
            match e {
                ExprView::Ident(callee) => if !(p <= q < ts.len()) {
                    Err(stalled(ts, p))
                } else {
                    match args_at(ts, q + 1) {
                        Err(err) => Err(err),
                        Ok((args, r)) => match expect_at(
                            ts,
                            r,
                            Token::RParen,
                            "after call arguments"@,
                        ) {
                            Err(err) => Err(err),
                            Ok(s) => if tok_at(ts, s) is LParen {
                                // The call is no identifier, so it cannot
                                // be called in turn.
                                Err(error_at(ts, s, "expression is not callable"@))
                            } else {
                                Ok((ExprView::Call { callee, args }, s))
                            },
                        },
                    }
                },
                _ => Err(error_at(ts, q, "expression is not callable"@)),
            }
        } else {
            Ok((e, q))
        },
    }
}

pub open spec fn args_at(ts: Seq<Token>, p: int) -> Result<(Seq<ExprView>, int), SyntaxError>
    decreases ts.len() - p, 24nat,
{
    if tok_at(ts, p) is RParen {
        Ok((seq![], p))
    } else {
        args_from(ts, p, seq![])
    }
}

/// Arguments from `p` on, after the ones in `acc`.
pub open spec fn args_from(ts: Seq<Token>, p: int, acc: Seq<ExprView>) -> Result<
    (Seq<ExprView>, int),
    SyntaxError,
>
    decreases ts.len() - p, 23nat,
{
    match expr_at(ts, p) {
        Err(e) => Err(e),
        Ok((e, q)) => if tok_at(ts, q) is Comma {
            if !(p <= q < ts.len()) {
                Err(stalled(ts, p))
            } else {
                args_from(ts, q + 1, acc.push(e))
            }
        } else {
            Ok((acc.push(e), q))
        },
    }
}

pub open spec fn primary_at(ts: Seq<Token>, p: int) -> Result<(ExprView, int), SyntaxError>
    decreases ts.len() - p, 6nat,
{
    match tok_at(ts, p) {
        Token::Int(n) => Ok((ExprView::IntLit(n), p + 1)),
        Token::True => Ok((ExprView::BoolLit(true), p + 1)),
        Token::False => Ok((ExprView::BoolLit(false), p + 1)),
        Token::Ident(name) => Ok((ExprView::Ident(name@), p + 1)),
        Token::LParen => match expr_at(ts, p + 1) {
            Err(e) => Err(e),
            Ok((e, q)) => match expect_at(
                ts,
                q,
                Token::RParen,
                "to close parenthesized expression"@,
            ) {
                Err(err) => Err(err),
                Ok(r) => Ok((e, r)),
            },
        },
        Token::LBrace => match block_at(ts, p) {
            Err(e) => Err(e),
            Ok((b, q)) => Ok((ExprView::Block(b), q)),
        },
        Token::If => if_at(ts, p),
        other => Err(SyntaxError { message: "expected an expression"@, found: other, pos: p }),
    }
}

pub open spec fn if_at(ts: Seq<Token>, p: int) -> Result<(ExprView, int), SyntaxError>
    decreases ts.len() - p, 5nat,
{
    match expect_at(ts, p, Token::If, "at start of if expression"@) {
        Err(e) => Err(e),
        Ok(p1) => match expr_at(ts, p1) {
            Err(e) => Err(e),
            Ok((cond, p2)) => if !advanced(ts, p, p2) {
                Err(stalled(ts, p))
            } else {
                match block_at(ts, p2) {
                    Err(e) => Err(e),
                    Ok((then_branch, p3)) => if !advanced(ts, p, p3) {
                        Err(stalled(ts, p))
                    } else if tok_at(ts, p3) is Else {
                        let p4 = p3 + 1;
                        if tok_at(ts, p4) is If {
                            match if_at(ts, p4) {
                                Err(e) => Err(e),
                                Ok((inner, p5)) => Ok(
                                    (
                                        ExprView::If {
                                            cond: Box::new(cond),
                                            then_branch,
                                            else_branch: Some(
                                                Box::new(ElseView::If(Box::new(inner))),
                                            ),
                                        },
                                        p5,
                                    ),
                                ),
                            }
                        } else {
                            match block_at(ts, p4) {
                                Err(e) => Err(e),
                                Ok((b, p5)) => Ok(
                                    (
                                        ExprView::If {
                                            cond: Box::new(cond),
                                            then_branch,
                                            else_branch: Some(Box::new(ElseView::Block(b))),
                                        },
                                        p5,
                                    ),
                                ),
                            }
                        }
                    } else {
                        Ok(
                            (
                                ExprView::If {
                                    cond: Box::new(cond),
                                    then_branch,
                                    else_branch: None,
                                },
                                p3,
                            ),
                        )
                    },
                }
            },
        },
    }
}

pub open spec fn block_at(ts: Seq<Token>, p: int) -> Result<(BlockView, int), SyntaxError>
    decreases ts.len() - p, 5nat,
{
    match expect_at(ts, p, Token::LBrace, "to start block"@) {
        Err(e) => Err(e),
        Ok(p1) => match block_items(ts, p1, seq![]) {
            Err(e) => Err(e),
            Ok((stmts, tail, p2)) => match expect_at(ts, p2, Token::RBrace, "to close block"@) {
                Err(e) => Err(e),
                Ok(p3) => Ok((BlockView { stmts, tail }, p3)),
            },
        },
    }
}

/// An expression that needs no `;` to stand as a statement.
pub open spec fn block_like(e: ExprView) -> bool {
    e is If || e is Block
}

/// The statements (after `stmts`) and tail of a block, up to its `}`.
pub open spec fn block_items(ts: Seq<Token>, p: int, stmts: Seq<StmtView>) -> Result<
    (Seq<StmtView>, Option<Box<ExprView>>, int),
    SyntaxError,
>
    decreases ts.len() - p, 27nat,
{
    let t = tok_at(ts, p);
    if t is RBrace {
        Ok((stmts, None, p))
    } else if t is Let || t is Return || t is While {
        match stmt_at(ts, p) {
            Err(e) => Err(e),
            Ok((s, q)) => if !advanced(ts, p, q) {
                Err(stalled(ts, p))
            } else {
                block_items(ts, q, stmts.push(s))
            },
        }
    } else {
        match expr_at(ts, p) {
            Err(e) => Err(e),
            Ok((e, q)) => if !advanced(ts, p, q) {
                Err(stalled(ts, p))
            } else if tok_at(ts, q) is Semicolon {
                // An explicit `;` always makes a statement.
                block_items(ts, q + 1, stmts.push(StmtView::Expr(e)))
            } else if tok_at(ts, q) is RBrace {
                // Nothing follows: the block's value.
                Ok((stmts, Some(Box::new(e)), q))
            } else if block_like(e) {
                block_items(ts, q, stmts.push(StmtView::Expr(e)))
            } else {
                Err(error_at(ts, q, "expected `;` after expression statement"@))
            }
        }
    }
}

pub open spec fn stmt_at(ts: Seq<Token>, p: int) -> Result<(StmtView, int), SyntaxError>
    decreases ts.len() - p, 26nat,
{
    match tok_at(ts, p) {
        Token::Let => let_at(ts, p),
        Token::Return => return_at(ts, p),
        Token::While => while_at(ts, p),
        _ => Err(stalled(ts, p)),
    }
}

pub open spec fn let_at(ts: Seq<Token>, p: int) -> Result<(StmtView, int), SyntaxError>
    decreases ts.len() - p, 25nat,
{
    match expect_at(ts, p, Token::Let, "at start of let statement"@) {
        Err(e) => Err(e),
        Ok(p1) => {
            let (mutable, p2) = match_at(ts, p1, Token::Mut);
            match ident_at(ts, p2) {
                Err(e) => Err(e),
                Ok((name, p3)) => {
                    let (has_ty, p4) = match_at(ts, p3, Token::Colon);
                    let ty: Result<(Option<Type>, int), SyntaxError> = if has_ty {
                        match type_at(ts, p4) {
                            Err(e) => Err(e),
                            Ok((t, q)) => Ok((Some(t), q)),
                        }
                    } else {
                        Ok((None, p4))
                    };
                    match ty {
                        Err(e) => Err(e),
                        Ok((ty, p5)) => match expect_at(ts, p5, Token::Eq, "in let statement"@) {
                            Err(e) => Err(e),
                            Ok(p6) => if !advanced(ts, p, p6) {
                                Err(stalled(ts, p))
                            } else {
                                match expr_at(ts, p6) {
                                    Err(e) => Err(e),
                                    Ok((value, p7)) => match expect_at(
                                        ts,
                                        p7,
                                        Token::Semicolon,
                                        "after let statement"@,
                                    ) {
                                        Err(e) => Err(e),
                                        Ok(p8) => Ok(
                                            (StmtView::Let { name, mutable, ty, value }, p8),
                                        ),
                                    },
                                }
                            },
                        },
                    }
                },
            }
        },
    }
}

pub open spec fn return_at(ts: Seq<Token>, p: int) -> Result<(StmtView, int), SyntaxError>
    decreases ts.len() - p, 25nat,
{
    match expect_at(ts, p, Token::Return, "at start of return statement"@) {
        Err(e) => Err(e),
        Ok(p1) => {
            let value: Result<(Option<ExprView>, int), SyntaxError> = if tok_at(
                ts,
                p1,
            ) is Semicolon {
                Ok((None, p1))
            } else if !advanced(ts, p, p1) {
                Err(stalled(ts, p))
            } else {
                match expr_at(ts, p1) {
                    Err(e) => Err(e),
                    Ok((e, q)) => Ok((Some(e), q)),
                }
            };
            match value {
                Err(e) => Err(e),
                Ok((value, p2)) => match expect_at(
                    ts,
                    p2,
                    Token::Semicolon,
                    "after return statement"@,
                ) {
                    Err(e) => Err(e),
                    Ok(p3) => Ok((StmtView::Return(value), p3)),
                },
            }
        },
    }
}

pub open spec fn while_at(ts: Seq<Token>, p: int) -> Result<(StmtView, int), SyntaxError>
    decreases ts.len() - p, 25nat,
{
    match expect_at(ts, p, Token::While, "at start of while statement"@) {
        Err(e) => Err(e),
        Ok(p1) => if !advanced(ts, p, p1) {
            Err(stalled(ts, p))
        } else {
            match expr_at(ts, p1) {
                Err(e) => Err(e),
                Ok((cond, p2)) => if !advanced(ts, p, p2) {
                    Err(stalled(ts, p))
                } else {
                    match block_at(ts, p2) {
                        Err(e) => Err(e),
                        Ok((body, p3)) => Ok((StmtView::While { cond, body }, p3)),
                    }
                },
            }
        },
    }
}

pub open spec fn type_result(r: Result<Type, ParseError>, pos: int, s: Result<(Type, int), SyntaxError>) -> bool {
    match r {
        Ok(t) => s == Ok::<(Type, int), SyntaxError>((t, pos)),
        Err(err) => s == Err::<(Type, int), SyntaxError>(err@) && pos == err.pos as int,
    }
}

pub open spec fn params_at(ts: Seq<Token>, p: int) -> Result<(Seq<ParamView>, int), SyntaxError> {
    if tok_at(ts, p) is RParen {
        Ok((seq![], p))
    } else {
        params_from(ts, p, seq![])
    }
}

/// Parameters from `p` on, after the ones in `acc`.
pub open spec fn params_from(ts: Seq<Token>, p: int, acc: Seq<ParamView>) -> Result<
    (Seq<ParamView>, int),
    SyntaxError,
>
    decreases ts.len() - p,
{
    match ident_at(ts, p) {
        Err(e) => Err(e),
        Ok((name, p1)) => match expect_at(ts, p1, Token::Colon, "after parameter name"@) {
            Err(e) => Err(e),
            Ok(p2) => match type_at(ts, p2) {
                Err(e) => Err(e),
                Ok((ty, p3)) => {
                    let acc2 = acc.push(ParamView { name, ty });
                    if tok_at(ts, p3) is Comma {
                        if !(p <= p3 < ts.len()) {
                            Err(stalled(ts, p))
                        } else {
                            params_from(ts, p3 + 1, acc2)
                        }
                    } else {
                        Ok((acc2, p3))
                    }
                },
            },
        },
    }
}

pub open spec fn function_at(ts: Seq<Token>, p: int) -> Result<(FunctionView, int), SyntaxError> {
    match ident_at(ts, p) {
        Err(e) => Err(e),
        Ok((name, p1)) => match expect_at(ts, p1, Token::LParen, "after function name"@) {
            Err(e) => Err(e),
            Ok(p2) => match params_at(ts, p2) {
                Err(e) => Err(e),
                Ok((params, p3)) => match expect_at(ts, p3, Token::RParen, "after parameters"@) {
                    Err(e) => Err(e),
                    Ok(p4) => {
                        let (arrow, p5) = match_at(ts, p4, Token::Arrow);
                        let ret: Result<(Type, int), SyntaxError> = if arrow {
                            type_at(ts, p5)
                        } else {
                            Ok((Type::Unit, p5))
                        };
                        match ret {
                            Err(e) => Err(e),
                            Ok((return_type, p6)) => match block_at(ts, p6) {
                                Err(e) => Err(e),
                                Ok((body, p7)) => Ok(
                                    (FunctionView { name, params, return_type, body }, p7),
                                ),
                            },
                        }
                    },
                },
            },
        },
    }
}

pub open spec fn item_at(ts: Seq<Token>, p: int) -> Result<(FunctionView, int), SyntaxError> {
    match expect_at(ts, p, Token::Fn, "at start of item"@) {
        Err(e) => Err(e),
        Ok(p1) => function_at(ts, p1),
    }
}

/// Items from `p` up to `Eof`, after the ones in `acc`.
pub open spec fn items_from(ts: Seq<Token>, p: int, acc: Seq<FunctionView>) -> Result<
    Seq<FunctionView>,
    SyntaxError,
>
    decreases ts.len() - p,
{
    if tok_at(ts, p) is Eof {
        Ok(acc)
    } else {
        match item_at(ts, p) {
            Err(e) => Err(e),
            Ok((f, q)) => if !advanced(ts, p, q) {
                Err(stalled(ts, p))
            } else {
                items_from(ts, q, acc.push(f))
            },
        }
    }
}

/// The parse of a whole token sequence: its functions in order, or the
/// first error.
pub open spec fn program_at(ts: Seq<Token>) -> Result<Seq<FunctionView>, SyntaxError> {
    items_from(ts, 0, seq![])
}

// ---------------------------------------------------------------------
// Binary operators
// ---------------------------------------------------------------------

/// The expression that a token is on its own: a literal or an identifier.
pub open spec fn atom(t: Token) -> Option<ExprView> {
    match t {
        Token::Int(n) => Some(ExprView::IntLit(n)),
        Token::True => Some(ExprView::BoolLit(true)),
        Token::False => Some(ExprView::BoolLit(false)),
        Token::Ident(name) => Some(ExprView::Ident(name@)),
        _ => None,
    }
}

/// A token that ends an operand: `;`, `,`, `)`, `{`, `}` or the end.
pub open spec fn closes_operand(t: Token) -> bool {
    t is Semicolon || t is Comma || t is RParen || t is LBrace || t is RBrace || t is Eof
}

/// An atom not followed by `(` is a `unary` of one token.
proof fn lemma_atom_unary(ts: Seq<Token>, p: int)
    requires
        atom(tok_at(ts, p)) is Some,
        !(tok_at(ts, p + 1) is LParen),
    ensures
        unary_at(ts, p) == Ok::<(ExprView, int), SyntaxError>((atom(tok_at(ts, p)).unwrap(), p + 1)),
{
    assert(primary_at(ts, p) == Ok::<(ExprView, int), SyntaxError>(
        (atom(tok_at(ts, p)).unwrap(), p + 1),
    ));
    assert(call_at(ts, p) == Ok::<(ExprView, int), SyntaxError>(
        (atom(tok_at(ts, p)).unwrap(), p + 1),
    ));
}

/// What a level parses is what a tighter one does, when the token after it
/// is an operator of neither.
proof fn lemma_climb(ts: Seq<Token>, p: int, base: Level, l: Level, e: ExprView, q: int)
    requires
        level_at(ts, p, base) == Ok::<(ExprView, int), SyntaxError>((e, q)),
        advanced(ts, p, q),
        level_rank(base) <= level_rank(l),
        forall|k: Level|
            level_rank(k) <= level_rank(l) ==> (#[trigger] level_op(k, tok_at(ts, q))) is None,
    ensures
        level_at(ts, p, l) == Ok::<(ExprView, int), SyntaxError>((e, q)),
    decreases level_rank(l),
{
    if l != base {
        let t = tighter(l);
        assert(level_rank(t) < level_rank(l));
        assert(level_rank(base) <= level_rank(t));
        lemma_climb(ts, p, base, t, e, q);
        assert(operand_at(ts, p, l) == level_at(ts, p, t));
        assert(level_op(l, tok_at(ts, q)) is None);
        assert(level_rest(ts, q, l, e) == Ok::<(ExprView, int), SyntaxError>((e, q)));
    }
}

/// The operand of level `l` at an atom is that atom, when the token after
/// it is no operator of a tighter level.
proof fn lemma_operand_atom(ts: Seq<Token>, p: int, l: Level)
    requires
        atom(tok_at(ts, p)) is Some,
        !(tok_at(ts, p + 1) is LParen),
        forall|k: Level|
            level_rank(k) < level_rank(l) ==> (#[trigger] level_op(k, tok_at(ts, p + 1))) is None,
    ensures
        operand_at(ts, p, l) == Ok::<(ExprView, int), SyntaxError>(
            (atom(tok_at(ts, p)).unwrap(), p + 1),
        ),
{
    let a = atom(tok_at(ts, p)).unwrap();
    lemma_atom_unary(ts, p);
    assert(0 <= p < ts.len());
    if l != Level::Factor {
        assert(level_op(Level::Factor, tok_at(ts, p + 1)) is None);
        assert(level_rest(ts, p + 1, Level::Factor, a) == Ok::<(ExprView, int), SyntaxError>(
            (a, p + 1),
        ));
        assert(level_at(ts, p, Level::Factor) == Ok::<(ExprView, int), SyntaxError>((a, p + 1)));
        let t = tighter(l);
        assert(level_rank(t) < level_rank(l));
        lemma_climb(ts, p, Level::Factor, t, a, p + 1);
    }
}

/// How tightly each binary operator binds, loosest first: `||`, `&&`,
/// `== !=`, `< > <= >=`, `+ -`, `* / %`.
pub open spec fn binding_power(op: BinOp) -> nat {
    match op {
        BinOp::Or => 1,
        BinOp::And => 2,
        BinOp::Eq | BinOp::NotEq => 3,
        BinOp::Lt | BinOp::Gt | BinOp::LtEq | BinOp::GtEq => 4,
        BinOp::Add | BinOp::Sub => 5,
        BinOp::Mul | BinOp::Div | BinOp::Mod => 6,
    }
}

/// The token that writes each binary operator.
pub open spec fn token_of(op: BinOp) -> Token {
    match op {
        BinOp::Add => Token::Plus,
        BinOp::Sub => Token::Minus,
        BinOp::Mul => Token::Star,
        BinOp::Div => Token::Slash,
        BinOp::Mod => Token::Percent,
        BinOp::Eq => Token::EqEq,
        BinOp::NotEq => Token::NotEq,
        BinOp::Lt => Token::Lt,
        BinOp::Gt => Token::Gt,
        BinOp::LtEq => Token::LtEq,
        BinOp::GtEq => Token::GtEq,
        BinOp::And => Token::AndAnd,
        BinOp::Or => Token::OrOr,
    }
}

/// The precedence level that parses `op`.
spec fn level_of(op: BinOp) -> Level {
    match op {
        BinOp::Or => Level::Or,
        BinOp::And => Level::And,
        BinOp::Eq | BinOp::NotEq => Level::Equality,
        BinOp::Lt | BinOp::Gt | BinOp::LtEq | BinOp::GtEq => Level::Comparison,
        BinOp::Add | BinOp::Sub => Level::Term,
        BinOp::Mul | BinOp::Div | BinOp::Mod => Level::Factor,
    }
}

/// The next tighter level (`Factor` is the tightest).
spec fn tighter(l: Level) -> Level {
    match l {
        Level::Or => Level::And,
        Level::And => Level::Equality,
        Level::Equality => Level::Comparison,
        Level::Comparison => Level::Term,
        _ => Level::Factor,
    }
}

/// The token of `op` is an operator of its own level and of no other.
proof fn lemma_token_level(op: BinOp)
    ensures
        level_op(level_of(op), token_of(op)) == Some(op),
        forall|k: Level| k != level_of(op) ==> (#[trigger] level_op(k, token_of(op))) is None,
        level_rank(level_of(op)) == 22 - 2 * binding_power(op),
        !(token_of(op) is LParen),
        !(token_of(op) is Eq),
{
}

/// `x t y` at the level `l` of `t`, followed by a token that is no
/// operator of `l` or a tighter level.
proof fn lemma_level_pair(ts: Seq<Token>, p: int, l: Level, op: BinOp)
    requires
        atom(tok_at(ts, p)) is Some,
        atom(tok_at(ts, p + 2)) is Some,
        level_op(l, tok_at(ts, p + 1)) == Some(op),
        forall|k: Level|
            level_rank(k) < level_rank(l) ==> (#[trigger] level_op(k, tok_at(ts, p + 1))) is None,
        forall|k: Level|
            level_rank(k) <= level_rank(l) ==> (#[trigger] level_op(k, tok_at(ts, p + 3))) is None,
        !(tok_at(ts, p + 3) is LParen),
    ensures
        level_at(ts, p, l) == Ok::<(ExprView, int), SyntaxError>(
            (binary(op, atom(tok_at(ts, p)).unwrap(), atom(tok_at(ts, p + 2)).unwrap()), p + 3),
        ),
{
    let a = atom(tok_at(ts, p)).unwrap();
    let b = atom(tok_at(ts, p + 2)).unwrap();
    let e = binary(op, a, b);
    assert(0 <= p + 2 < ts.len());
    assert(!(tok_at(ts, p + 1) is LParen));
    lemma_operand_atom(ts, p, l);
    lemma_operand_atom(ts, p + 2, l);
    assert(level_rest(ts, p + 3, l, e) == Ok::<(ExprView, int), SyntaxError>((e, p + 3)));
    assert(level_rest(ts, p + 1, l, a) == Ok::<(ExprView, int), SyntaxError>((e, p + 3)));
}

/// Each binary operator token stands for the operator of the same name:
/// `x t y`, with single-token operands and followed by a token that ends
/// an operand, parses to the operator `op` applied to `x` and `y` in that
/// order, for `+ - * / %` (`Add`, `Sub`, `Mul`, `Div`, `Mod`), `== !=`
/// (`Eq`, `NotEq`), `< > <= >=` (`Lt`, `Gt`, `LtEq`, `GtEq`), `&&` (`And`)
/// and `||` (`Or`).
pub proof fn binary_operator_tokens(ts: Seq<Token>, p: int, t: Token, op: BinOp)
    requires
        atom(tok_at(ts, p)) is Some,
        tok_at(ts, p + 1) == t,
        atom(tok_at(ts, p + 2)) is Some,
        closes_operand(tok_at(ts, p + 3)),
        (t == Token::Plus && op == BinOp::Add) || (t == Token::Minus && op == BinOp::Sub) || (t
            == Token::Star && op == BinOp::Mul) || (t == Token::Slash && op == BinOp::Div) || (t
            == Token::Percent && op == BinOp::Mod) || (t == Token::EqEq && op == BinOp::Eq) || (t
            == Token::NotEq && op == BinOp::NotEq) || (t == Token::Lt && op == BinOp::Lt) || (t
            == Token::Gt && op == BinOp::Gt) || (t == Token::LtEq && op == BinOp::LtEq) || (t
            == Token::GtEq && op == BinOp::GtEq) || (t == Token::AndAnd && op == BinOp::And) || (
        t == Token::OrOr && op == BinOp::Or),
    ensures
        expr_at(ts, p) == Ok::<(ExprView, int), SyntaxError>(
            (
                ExprView::Binary {
                    op,
                    lhs: Box::new(atom(tok_at(ts, p)).unwrap()),
                    rhs: Box::new(atom(tok_at(ts, p + 2)).unwrap()),
                },
                p + 3,
            ),
        ),
{
    let l = if t is OrOr {
        Level::Or
    } else if t is AndAnd {
        Level::And
    } else if t is EqEq || t is NotEq {
        Level::Equality
    } else if t is Lt || t is Gt || t is LtEq || t is GtEq {
        Level::Comparison
    } else if t is Plus || t is Minus {
        Level::Term
    } else {
        Level::Factor
    };
    assert forall|k: Level| level_rank(k) < level_rank(l) implies (#[trigger] level_op(
        k,
        tok_at(ts, p + 1),
    )) is None by {}
    assert forall|k: Level| #[trigger] level_op(k, tok_at(ts, p + 3)) is None by {}
    let e = binary(op, atom(tok_at(ts, p)).unwrap(), atom(tok_at(ts, p + 2)).unwrap());
    lemma_level_pair(ts, p, l, op);
    lemma_climb(ts, p, l, Level::Or, e, p + 3);
    assert(assignment_at(ts, p) == Ok::<(ExprView, int), SyntaxError>((e, p + 3)));
}

/// Precedence and associativity: in `x t1 y t2 z`, with single-token
/// operands and followed by a token that ends an operand, `y` goes with
/// `t2` when `t2` binds tighter than `t1`, and with `t1` otherwise; so
/// operators of one level group to the left.
pub proof fn operators_group_by_precedence(ts: Seq<Token>, p: int, op1: BinOp, op2: BinOp)
    requires
        atom(tok_at(ts, p)) is Some,
        tok_at(ts, p + 1) == token_of(op1),
        atom(tok_at(ts, p + 2)) is Some,
        tok_at(ts, p + 3) == token_of(op2),
        atom(tok_at(ts, p + 4)) is Some,
        closes_operand(tok_at(ts, p + 5)),
    ensures
        ({
            let x = atom(tok_at(ts, p)).unwrap();
            let y = atom(tok_at(ts, p + 2)).unwrap();
            let z = atom(tok_at(ts, p + 4)).unwrap();
            expr_at(ts, p) == Ok::<(ExprView, int), SyntaxError>(
                (
                    if binding_power(op2) > binding_power(op1) {
                        binary(op1, x, binary(op2, y, z))
                    } else {
                        binary(op2, binary(op1, x, y), z)
                    },
                    p + 5,
                ),
            )
        }),
{
    let x = atom(tok_at(ts, p)).unwrap();
    let y = atom(tok_at(ts, p + 2)).unwrap();
    let z = atom(tok_at(ts, p + 4)).unwrap();
    let l1 = level_of(op1);
    let l2 = level_of(op2);
    lemma_token_level(op1);
    lemma_token_level(op2);
    assert(0 <= p + 4 < ts.len());
    assert forall|k: Level| #[trigger] level_op(k, tok_at(ts, p + 5)) is None by {}
    assert forall|k: Level| level_rank(k) < level_rank(l1) implies (#[trigger] level_op(
        k,
        tok_at(ts, p + 1),
    )) is None by {}
    assert forall|k: Level| level_rank(k) < level_rank(l2) implies (#[trigger] level_op(
        k,
        tok_at(ts, p + 3),
    )) is None by {}
    let e = if binding_power(op2) > binding_power(op1) {
        let b2 = binary(op2, y, z);
        lemma_operand_atom(ts, p, l1);
        lemma_level_pair(ts, p + 2, l2, op2);
        let t = tighter(l1);
        assert(level_rank(t) < level_rank(l1));
        assert(level_rank(l2) <= level_rank(t));
        lemma_climb(ts, p + 2, l2, t, b2, p + 5);
        assert(operand_at(ts, p + 2, l1) == level_at(ts, p + 2, t));
        let e = binary(op1, x, b2);
        assert(level_rest(ts, p + 5, l1, e) == Ok::<(ExprView, int), SyntaxError>((e, p + 5)));
        assert(level_rest(ts, p + 1, l1, x) == Ok::<(ExprView, int), SyntaxError>((e, p + 5)));
        assert(level_at(ts, p, l1) == Ok::<(ExprView, int), SyntaxError>((e, p + 5)));
        lemma_climb(ts, p, l1, Level::Or, e, p + 5);
        e
    } else if binding_power(op2) == binding_power(op1) {
        assert(l1 == l2);
        let b1 = binary(op1, x, y);
        let e = binary(op2, b1, z);
        lemma_operand_atom(ts, p, l1);
        lemma_operand_atom(ts, p + 2, l1);
        lemma_operand_atom(ts, p + 4, l1);
        assert(level_rest(ts, p + 5, l1, e) == Ok::<(ExprView, int), SyntaxError>((e, p + 5)));
        assert(level_rest(ts, p + 3, l1, b1) == Ok::<(ExprView, int), SyntaxError>((e, p + 5)));
        assert(level_rest(ts, p + 1, l1, x) == Ok::<(ExprView, int), SyntaxError>((e, p + 5)));
        assert(level_at(ts, p, l1) == Ok::<(ExprView, int), SyntaxError>((e, p + 5)));
        lemma_climb(ts, p, l1, Level::Or, e, p + 5);
        e
    } else {
        let b1 = binary(op1, x, y);
        let e = binary(op2, b1, z);
        assert forall|k: Level| level_rank(k) <= level_rank(l1) implies (#[trigger] level_op(
            k,
            tok_at(ts, p + 3),
        )) is None by {}
        lemma_level_pair(ts, p, l1, op1);
        let t = tighter(l2);
        assert(level_rank(t) < level_rank(l2));
        assert(level_rank(l1) <= level_rank(t));
        lemma_climb(ts, p, l1, t, b1, p + 3);
        assert(operand_at(ts, p, l2) == level_at(ts, p, t));
        lemma_operand_atom(ts, p + 4, l2);
        assert(level_rest(ts, p + 5, l2, e) == Ok::<(ExprView, int), SyntaxError>((e, p + 5)));
        assert(level_rest(ts, p + 3, l2, b1) == Ok::<(ExprView, int), SyntaxError>((e, p + 5)));
        assert(level_at(ts, p, l2) == Ok::<(ExprView, int), SyntaxError>((e, p + 5)));
        lemma_climb(ts, p, l2, Level::Or, e, p + 5);
        e
    };
    assert(assignment_at(ts, p) == Ok::<(ExprView, int), SyntaxError>((e, p + 5)));
}

/// `-x` parses to `Neg` applied to `x`, and `!x` to `Not` applied to `x`,
/// for a single-token operand `x` followed by a token that ends an operand.
pub proof fn unary_operator_tokens(ts: Seq<Token>, p: int, t: Token, op: UnOp)
    requires
        tok_at(ts, p) == t,
        atom(tok_at(ts, p + 1)) is Some,
        closes_operand(tok_at(ts, p + 2)),
        (t == Token::Minus && op == UnOp::Neg) || (t == Token::Bang && op == UnOp::Not),
    ensures
        expr_at(ts, p) == Ok::<(ExprView, int), SyntaxError>(
            (ExprView::Unary { op, expr: Box::new(atom(tok_at(ts, p + 1)).unwrap()) }, p + 2),
        ),
{
    let a = atom(tok_at(ts, p + 1)).unwrap();
    let u = ExprView::Unary { op, expr: Box::new(a) };
    lemma_atom_unary(ts, p + 1);
    assert(0 <= p + 1 < ts.len());
    assert(unary_at(ts, p) == Ok::<(ExprView, int), SyntaxError>((u, p + 2)));
    assert forall|k: Level| #[trigger] level_op(k, tok_at(ts, p + 2)) is None by {}
    assert(level_rest(ts, p + 2, Level::Factor, u) == Ok::<(ExprView, int), SyntaxError>(
        (u, p + 2),
    ));
    assert(level_at(ts, p, Level::Factor) == Ok::<(ExprView, int), SyntaxError>((u, p + 2)));
    lemma_climb(ts, p, Level::Factor, Level::Or, u, p + 2);
    assert(assignment_at(ts, p) == Ok::<(ExprView, int), SyntaxError>((u, p + 2)));
}

/// The type names: `i32` is `I32`, `bool` is `Bool` and `()` is `Unit`.
pub proof fn type_tokens(ts: Seq<Token>, p: int)
    ensures
        tok_at(ts, p) is TyI32 ==> type_at(ts, p) == Ok::<(Type, int), SyntaxError>(
            (Type::I32, p + 1),
        ),
        tok_at(ts, p) is TyBool ==> type_at(ts, p) == Ok::<(Type, int), SyntaxError>(
            (Type::Bool, p + 1),
        ),
        tok_at(ts, p) is LParen && tok_at(ts, p + 1) is RParen ==> type_at(ts, p) == Ok::<
            (Type, int),
            SyntaxError,
        >((Type::Unit, p + 2)),
{
}

// ---------------------------------------------------------------------
// What the parsing functions return, as values
// ---------------------------------------------------------------------

pub open spec fn exprs_view(es: Seq<Expr>) -> Seq<ExprView> {
    es.map_values(|e: Expr| expr_view(e))
}

pub open spec fn stmts_view(ss: Seq<Stmt>) -> Seq<StmtView> {
    ss.map_values(|s: Stmt| stmt_view(s))
}

pub open spec fn params_view(ps: Seq<Param>) -> Seq<ParamView> {
    ps.map_values(|p: Param| param_view(p))
}

pub open spec fn expr_result(r: Result<Expr, ParseError>, pos: int, s: Result<(ExprView, int), SyntaxError>) -> bool {
    match r {
        Ok(e) => s == Ok::<(ExprView, int), SyntaxError>((expr_view(e), pos)),
        Err(err) => s == Err::<(ExprView, int), SyntaxError>(err@) && pos == err.pos as int,
    }
}

pub open spec fn block_result(r: Result<Block, ParseError>, pos: int, s: Result<(BlockView, int), SyntaxError>) -> bool {
    match r {
        Ok(b) => s == Ok::<(BlockView, int), SyntaxError>((block_view(b), pos)),
        Err(err) => s == Err::<(BlockView, int), SyntaxError>(err@) && pos == err.pos as int,
    }
}

pub open spec fn stmt_result(r: Result<Stmt, ParseError>, pos: int, s: Result<(StmtView, int), SyntaxError>) -> bool {
    match r {
        Ok(st) => s == Ok::<(StmtView, int), SyntaxError>((stmt_view(st), pos)),
        Err(err) => s == Err::<(StmtView, int), SyntaxError>(err@) && pos == err.pos as int,
    }
}

pub open spec fn args_result(r: Result<Vec<Expr>, ParseError>, pos: int, s: Result<(Seq<ExprView>, int), SyntaxError>) -> bool {
    match r {
        Ok(v) => s == Ok::<(Seq<ExprView>, int), SyntaxError>((exprs_view(v@), pos)),
        Err(err) => s == Err::<(Seq<ExprView>, int), SyntaxError>(err@) && pos == err.pos as int,
    }
}

pub open spec fn params_result(r: Result<Vec<Param>, ParseError>, pos: int, s: Result<(Seq<ParamView>, int), SyntaxError>) -> bool {
    match r {
        Ok(v) => s == Ok::<(Seq<ParamView>, int), SyntaxError>((params_view(v@), pos)),
        Err(err) => s == Err::<(Seq<ParamView>, int), SyntaxError>(err@) && pos == err.pos as int,
    }
}

pub open spec fn function_result(r: Result<FunctionDecl, ParseError>, pos: int, s: Result<(FunctionView, int), SyntaxError>) -> bool {
    match r {
        Ok(f) => s == Ok::<(FunctionView, int), SyntaxError>((function_view(f), pos)),
        Err(err) => s == Err::<(FunctionView, int), SyntaxError>(err@) && pos == err.pos as int,
    }
}

pub open spec fn program_result(r: Result<Program, ParseError>, s: Result<Seq<FunctionView>, SyntaxError>) -> bool {
    match r {
        Ok(p) => s == Ok::<Seq<FunctionView>, SyntaxError>(program_view(p)),
        Err(err) => s == Err::<Seq<FunctionView>, SyntaxError>(err@),
    }
}


// ---------------------------------------------------------------------
// Token helpers
// ---------------------------------------------------------------------

/// Whether `a` is the data-free token `b`.
fn same_token(a: &Token, b: &Token) -> (r: bool)
    requires
        plain(*b),
    ensures
        r == (*a == *b),
{
    match (a, b) {
        (Token::True, Token::True) => true,
        (Token::False, Token::False) => true,
        (Token::Fn, Token::Fn) => true,
        (Token::Let, Token::Let) => true,
        (Token::Mut, Token::Mut) => true,
        (Token::If, Token::If) => true,
        (Token::Else, Token::Else) => true,
        (Token::While, Token::While) => true,
        (Token::Return, Token::Return) => true,
        (Token::TyI32, Token::TyI32) => true,
        (Token::TyBool, Token::TyBool) => true,
        (Token::LParen, Token::LParen) => true,
        (Token::RParen, Token::RParen) => true,
        (Token::LBrace, Token::LBrace) => true,
        (Token::RBrace, Token::RBrace) => true,
        (Token::Comma, Token::Comma) => true,
        (Token::Colon, Token::Colon) => true,
        (Token::Semicolon, Token::Semicolon) => true,
        (Token::Arrow, Token::Arrow) => true,
        (Token::Plus, Token::Plus) => true,
        (Token::Minus, Token::Minus) => true,
        (Token::Star, Token::Star) => true,
        (Token::Slash, Token::Slash) => true,
        (Token::Percent, Token::Percent) => true,
        (Token::Eq, Token::Eq) => true,
        (Token::EqEq, Token::EqEq) => true,
        (Token::NotEq, Token::NotEq) => true,
        (Token::Lt, Token::Lt) => true,
        (Token::Gt, Token::Gt) => true,
        (Token::LtEq, Token::LtEq) => true,
        (Token::GtEq, Token::GtEq) => true,
        (Token::AndAnd, Token::AndAnd) => true,
        (Token::OrOr, Token::OrOr) => true,
        (Token::Bang, Token::Bang) => true,
        (Token::Eof, Token::Eof) => true,
        _ => false,
    }
}

fn copy_token(t: &Token) -> (r: Token)
    ensures
        r == *t,
{
    match t {
        Token::Int(n) => Token::Int(*n),
        Token::Ident(s) => Token::Ident(s.clone()),
        Token::True => Token::True,
        Token::False => Token::False,
        Token::Fn => Token::Fn,
        Token::Let => Token::Let,
        Token::Mut => Token::Mut,
        Token::If => Token::If,
        Token::Else => Token::Else,
        Token::While => Token::While,
        Token::Return => Token::Return,
        Token::TyI32 => Token::TyI32,
        Token::TyBool => Token::TyBool,
        Token::LParen => Token::LParen,
        Token::RParen => Token::RParen,
        Token::LBrace => Token::LBrace,
        Token::RBrace => Token::RBrace,
        Token::Comma => Token::Comma,
        Token::Colon => Token::Colon,
        Token::Semicolon => Token::Semicolon,
        Token::Arrow => Token::Arrow,
        Token::Plus => Token::Plus,
        Token::Minus => Token::Minus,
        Token::Star => Token::Star,
        Token::Slash => Token::Slash,
        Token::Percent => Token::Percent,
        Token::Eq => Token::Eq,
        Token::EqEq => Token::EqEq,
        Token::NotEq => Token::NotEq,
        Token::Lt => Token::Lt,
        Token::Gt => Token::Gt,
        Token::LtEq => Token::LtEq,
        Token::GtEq => Token::GtEq,
        Token::AndAnd => Token::AndAnd,
        Token::OrOr => Token::OrOr,
        Token::Bang => Token::Bang,
        Token::Eof => Token::Eof,
    }
}

/// The name that `{:?}` shows for a data-free token.
fn token_name_str(t: &Token) -> (r: &'static str)
    requires
        plain(*t),
    ensures
        r@ == token_name(*t),
{
    match t {
        Token::True => "True",
        Token::False => "False",
        Token::Fn => "Fn",
        Token::Let => "Let",
        Token::Mut => "Mut",
        Token::If => "If",
        Token::Else => "Else",
        Token::While => "While",
        Token::Return => "Return",
        Token::TyI32 => "TyI32",
        Token::TyBool => "TyBool",
        Token::LParen => "LParen",
        Token::RParen => "RParen",
        Token::LBrace => "LBrace",
        Token::RBrace => "RBrace",
        Token::Comma => "Comma",
        Token::Colon => "Colon",
        Token::Semicolon => "Semicolon",
        Token::Arrow => "Arrow",
        Token::Plus => "Plus",
        Token::Minus => "Minus",
        Token::Star => "Star",
        Token::Slash => "Slash",
        Token::Percent => "Percent",
        Token::Eq => "Eq",
        Token::EqEq => "EqEq",
        Token::NotEq => "NotEq",
        Token::Lt => "Lt",
        Token::Gt => "Gt",
        Token::LtEq => "LtEq",
        Token::GtEq => "GtEq",
        Token::AndAnd => "AndAnd",
        Token::OrOr => "OrOr",
        Token::Bang => "Bang",
        Token::Eof => "Eof",
        _ => "",
    }
}


// ---------------------------------------------------------------------
// The parser
// ---------------------------------------------------------------------

pub struct Parser {
    tokens: Vec<Token>,
    pos: usize,
}

impl Parser {
    /// The tokens being parsed.
    pub closed spec fn tokens(&self) -> Seq<Token> {
        self.tokens@
    }

    /// The position of the next token.
    pub closed spec fn position(&self) -> int {
        self.pos as int
    }

    pub closed spec fn wf(&self) -> bool {
        self.pos <= self.tokens@.len()
    }

    /// The position of the next token.
    pub fn cursor(&self) -> (r: usize)
        ensures
            r as int == self.position(),
    {
        self.pos
    }

    pub fn new(tokens: Vec<Token>) -> (r: Self)
        ensures
            r.wf(),
            r.tokens() == tokens@,
            r.position() == 0,
    {
        Self { tokens, pos: 0 }
    }

    // ---- low-level cursor helpers ----

    fn peek(&self) -> (t: Token)
        requires
            self.wf(),
        ensures
            t == tok_at(self.tokens@, self.pos as int),
    {
        if self.pos < self.tokens.len() {
            copy_token(&self.tokens[self.pos])
        } else {
            Token::Eof
        }
    }

    fn advance(&mut self) -> (t: Token)
        requires
            old(self).wf(),
        ensures
            final(self).wf(),
            final(self).tokens == old(self).tokens,
            t == tok_at(old(self).tokens@, old(self).pos as int),
            final(self).pos == next_pos(old(self).tokens@, old(self).pos as int),
    {
        let tok = self.peek();
        if self.pos < self.tokens.len() && !same_token(&tok, &Token::Eof) {
            self.pos = self.pos + 1;
        }
        tok
    }

    fn check(&self, tok: &Token) -> (r: bool)
        requires
            self.wf(),
            plain(*tok),
        ensures
            r == (tok_at(self.tokens@, self.pos as int) == *tok),
    {
        if self.pos < self.tokens.len() {
            same_token(&self.tokens[self.pos], tok)
        } else {
            same_token(&Token::Eof, tok)
        }
    }

    fn matches(&mut self, tok: &Token) -> (r: bool)
        requires
            old(self).wf(),
            plain(*tok),
        ensures
            final(self).wf(),
            final(self).tokens == old(self).tokens,
            (r, final(self).pos as int) == match_at(old(self).tokens@, old(self).pos as int, *tok),
    {
        if self.check(tok) {
            self.advance();
            true
        } else {
            false
        }
    }

    fn expect(&mut self, tok: &Token, ctx: &str) -> (r: Result<Token, ParseError>)
        requires
            old(self).wf(),
            plain(*tok),
        ensures
            final(self).wf(),
            final(self).tokens == old(self).tokens,
            match (r, expect_at(old(self).tokens@, old(self).pos as int, *tok, ctx@)) {
                (Ok(t), Ok(q)) => t == *tok && final(self).pos == q,
                (Err(e), Err(se)) => e@ == se && final(self).pos == e.pos,
                _ => false,
            },
    {
        if self.check(tok) {
            Ok(self.advance())
        } else {
            let mut message = String::from_str("expected ");
            message.append(token_name_str(tok));
            message.append(" ");
            message.append(ctx);
            Err(self.error(message.as_str()))
        }
    }

    fn error(&self, message: &str) -> (e: ParseError)
        requires
            self.wf(),
        ensures
            e@ == error_at(self.tokens@, self.pos as int, message@),
    {
        ParseError { message: message.to_owned(), found: self.peek(), pos: self.pos }
    }

    fn expect_ident(&mut self) -> (r: Result<String, ParseError>)
        requires
            old(self).wf(),
        ensures
            final(self).wf(),
            final(self).tokens == old(self).tokens,
            match (r, ident_at(old(self).tokens@, old(self).pos as int)) {
                (Ok(name), Ok((n, q))) => name@ == n && final(self).pos == q,
                (Err(e), Err(se)) => e@ == se && final(self).pos == e.pos,
                _ => false,
            },
    {
        match self.advance() {
            Token::Ident(name) => Ok(name),
            other => Err(
                ParseError {
                    message: String::from_str("expected identifier"),
                    found: other,
                    pos: self.pos,
                },
            ),
        }
    }

    fn parse_type(&mut self) -> (r: Result<Type, ParseError>)
        requires
            old(self).wf(),
        ensures
            final(self).wf(),
            final(self).tokens == old(self).tokens,
            type_result(r, final(self).pos as int, type_at(old(self).tokens@, old(self).pos as int)),
            r is Ok ==> advanced(old(self).tokens@, old(self).pos as int, final(self).pos as int),
    {
        match self.advance() {
            Token::TyI32 => Ok(Type::I32),
            Token::TyBool => Ok(Type::Bool),
            Token::LParen => match self.expect(&Token::RParen, "to close unit type '()'") {
                Ok(_) => Ok(Type::Unit),
                Err(e) => Err(e),
            },
            other => Err(
                ParseError {
                    message: String::from_str("expected a type (i32, bool, or ())"),
                    found: other,
                    pos: self.pos,
                },
            ),
        }
    }
}


impl Parser {

    fn parse_logic_or(&mut self) -> (r: Result<Expr, ParseError>)
        requires
            old(self).wf(),
        ensures
            final(self).wf(),
            final(self).tokens == old(self).tokens,
            expr_result(r, final(self).pos as int, level_at(old(self).tokens@, old(self).pos as int, Level::Or)),
            r is Ok ==> advanced(old(self).tokens@, old(self).pos as int, final(self).pos as int),
        decreases old(self).tokens@.len() - old(self).pos, 20nat,
    {
        let ghost ts = self.tokens@;
        let ghost p0 = self.pos as int;
        let mut expr = match self.parse_logic_and() {
            Ok(e) => e,
            Err(e) => {
                return Err(e);
            },
        };
        loop
            invariant
                self.wf(),
                self.tokens == old(self).tokens,
                self.tokens@ == ts,
                p0 == old(self).pos,
                advanced(ts, p0, self.pos as int),
                level_at(ts, p0, Level::Or) == level_rest(ts, self.pos as int, Level::Or, expr_view(expr)),
            ensures
                self.wf(),
                self.tokens == old(self).tokens,
                advanced(ts, p0, self.pos as int),
                level_at(ts, p0, Level::Or) == Ok::<(ExprView, int), SyntaxError>((expr_view(expr), self.pos as int)),
            decreases ts.len() - self.pos,
        {
            let ghost q = self.pos as int;
            let ghost lhs = expr_view(expr);
            if !self.matches(&Token::OrOr) {
                break;
            }
            let op = BinOp::Or;
            proof {
                assert(self.pos == q + 1);
                assert(level_op(Level::Or, tok_at(ts, q)) == Some(op));
                assert(operand_at(ts, q + 1, Level::Or) == level_at(ts, q + 1, Level::And));
            }
            let rhs = match self.parse_logic_and() {
                Ok(e) => e,
                Err(e) => {
                    return Err(e);
                },
            };
            expr = Expr::Binary { op, lhs: Box::new(expr), rhs: Box::new(rhs) };
            proof {
                assert(expr_view(expr) == binary(op, lhs, expr_view(rhs)));
            }
        }
        Ok(expr)
    }

    fn parse_logic_and(&mut self) -> (r: Result<Expr, ParseError>)
        requires
            old(self).wf(),
        ensures
            final(self).wf(),
            final(self).tokens == old(self).tokens,
            expr_result(r, final(self).pos as int, level_at(old(self).tokens@, old(self).pos as int, Level::And)),
            r is Ok ==> advanced(old(self).tokens@, old(self).pos as int, final(self).pos as int),
        decreases old(self).tokens@.len() - old(self).pos, 18nat,
    {
        let ghost ts = self.tokens@;
        let ghost p0 = self.pos as int;
        let mut expr = match self.parse_equality() {
            Ok(e) => e,
            Err(e) => {
                return Err(e);
            },
        };
        loop
            invariant
                self.wf(),
                self.tokens == old(self).tokens,
                self.tokens@ == ts,
                p0 == old(self).pos,
                advanced(ts, p0, self.pos as int),
                level_at(ts, p0, Level::And) == level_rest(ts, self.pos as int, Level::And, expr_view(expr)),
            ensures
                self.wf(),
                self.tokens == old(self).tokens,
                advanced(ts, p0, self.pos as int),
                level_at(ts, p0, Level::And) == Ok::<(ExprView, int), SyntaxError>((expr_view(expr), self.pos as int)),
            decreases ts.len() - self.pos,
        {
            let ghost q = self.pos as int;
            let ghost lhs = expr_view(expr);
            if !self.matches(&Token::AndAnd) {
                break;
            }
            let op = BinOp::And;
            proof {
                assert(self.pos == q + 1);
                assert(level_op(Level::And, tok_at(ts, q)) == Some(op));
                assert(operand_at(ts, q + 1, Level::And) == level_at(ts, q + 1, Level::Equality));
            }
            let rhs = match self.parse_equality() {
                Ok(e) => e,
                Err(e) => {
                    return Err(e);
                },
            };
            expr = Expr::Binary { op, lhs: Box::new(expr), rhs: Box::new(rhs) };
            proof {
                assert(expr_view(expr) == binary(op, lhs, expr_view(rhs)));
            }
        }
        Ok(expr)
    }

    fn parse_equality(&mut self) -> (r: Result<Expr, ParseError>)
        requires
            old(self).wf(),
        ensures
            final(self).wf(),
            final(self).tokens == old(self).tokens,
            expr_result(r, final(self).pos as int, level_at(old(self).tokens@, old(self).pos as int, Level::Equality)),
            r is Ok ==> advanced(old(self).tokens@, old(self).pos as int, final(self).pos as int),
        decreases old(self).tokens@.len() - old(self).pos, 16nat,
    {
        let ghost ts = self.tokens@;
        let ghost p0 = self.pos as int;
        let mut expr = match self.parse_comparison() {
            Ok(e) => e,
            Err(e) => {
                return Err(e);
            },
        };
        loop
            invariant
                self.wf(),
                self.tokens == old(self).tokens,
                self.tokens@ == ts,
                p0 == old(self).pos,
                advanced(ts, p0, self.pos as int),
                level_at(ts, p0, Level::Equality) == level_rest(ts, self.pos as int, Level::Equality, expr_view(expr)),
            ensures
                self.wf(),
                self.tokens == old(self).tokens,
                advanced(ts, p0, self.pos as int),
                level_at(ts, p0, Level::Equality) == Ok::<(ExprView, int), SyntaxError>((expr_view(expr), self.pos as int)),
            decreases ts.len() - self.pos,
        {
            let ghost q = self.pos as int;
            let ghost lhs = expr_view(expr);
            let op = match self.peek() {
                Token::EqEq => Some(BinOp::Eq),
                Token::NotEq => Some(BinOp::NotEq),
                _ => None,
            };
            if op.is_none() {
                break;
            }
            let op = op.unwrap();
            self.advance();
            proof {
                assert(self.pos == q + 1);
                assert(level_op(Level::Equality, tok_at(ts, q)) == Some(op));
                assert(operand_at(ts, q + 1, Level::Equality) == level_at(ts, q + 1, Level::Comparison));
            }
            let rhs = match self.parse_comparison() {
                Ok(e) => e,
                Err(e) => {
                    return Err(e);
                },
            };
            expr = Expr::Binary { op, lhs: Box::new(expr), rhs: Box::new(rhs) };
            proof {
                assert(expr_view(expr) == binary(op, lhs, expr_view(rhs)));
            }
        }
        Ok(expr)
    }

    fn parse_comparison(&mut self) -> (r: Result<Expr, ParseError>)
        requires
            old(self).wf(),
        ensures
            final(self).wf(),
            final(self).tokens == old(self).tokens,
            expr_result(r, final(self).pos as int, level_at(old(self).tokens@, old(self).pos as int, Level::Comparison)),
            r is Ok ==> advanced(old(self).tokens@, old(self).pos as int, final(self).pos as int),
        decreases old(self).tokens@.len() - old(self).pos, 14nat,
    {
        let ghost ts = self.tokens@;
        let ghost p0 = self.pos as int;
        let mut expr = match self.parse_term() {
            Ok(e) => e,
            Err(e) => {
                return Err(e);
            },
        };
        loop
            invariant
                self.wf(),
                self.tokens == old(self).tokens,
                self.tokens@ == ts,
                p0 == old(self).pos,
                advanced(ts, p0, self.pos as int),
                level_at(ts, p0, Level::Comparison) == level_rest(ts, self.pos as int, Level::Comparison, expr_view(expr)),
            ensures
                self.wf(),
                self.tokens == old(self).tokens,
                advanced(ts, p0, self.pos as int),
                level_at(ts, p0, Level::Comparison) == Ok::<(ExprView, int), SyntaxError>((expr_view(expr), self.pos as int)),
            decreases ts.len() - self.pos,
        {
            let ghost q = self.pos as int;
            let ghost lhs = expr_view(expr);
            let op = match self.peek() {
                Token::Lt => Some(BinOp::Lt),
                Token::Gt => Some(BinOp::Gt),
                Token::LtEq => Some(BinOp::LtEq),
                Token::GtEq => Some(BinOp::GtEq),
                _ => None,
            };
            if op.is_none() {
                break;
            }
            let op = op.unwrap();
            self.advance();
            proof {
                assert(self.pos == q + 1);
                assert(level_op(Level::Comparison, tok_at(ts, q)) == Some(op));
                assert(operand_at(ts, q + 1, Level::Comparison) == level_at(ts, q + 1, Level::Term));
            }
            let rhs = match self.parse_term() {
                Ok(e) => e,
                Err(e) => {
                    return Err(e);
                },
            };
            expr = Expr::Binary { op, lhs: Box::new(expr), rhs: Box::new(rhs) };
            proof {
                assert(expr_view(expr) == binary(op, lhs, expr_view(rhs)));
            }
        }
        Ok(expr)
    }

    fn parse_term(&mut self) -> (r: Result<Expr, ParseError>)
        requires
            old(self).wf(),
        ensures
            final(self).wf(),
            final(self).tokens == old(self).tokens,
            expr_result(r, final(self).pos as int, level_at(old(self).tokens@, old(self).pos as int, Level::Term)),
            r is Ok ==> advanced(old(self).tokens@, old(self).pos as int, final(self).pos as int),
        decreases old(self).tokens@.len() - old(self).pos, 12nat,
    {
        let ghost ts = self.tokens@;
        let ghost p0 = self.pos as int;
        let mut expr = match self.parse_factor() {
            Ok(e) => e,
            Err(e) => {
                return Err(e);
            },
        };
        loop
            invariant
                self.wf(),
                self.tokens == old(self).tokens,
                self.tokens@ == ts,
                p0 == old(self).pos,
                advanced(ts, p0, self.pos as int),
                level_at(ts, p0, Level::Term) == level_rest(ts, self.pos as int, Level::Term, expr_view(expr)),
            ensures
                self.wf(),
                self.tokens == old(self).tokens,
                advanced(ts, p0, self.pos as int),
                level_at(ts, p0, Level::Term) == Ok::<(ExprView, int), SyntaxError>((expr_view(expr), self.pos as int)),
            decreases ts.len() - self.pos,
        {
            let ghost q = self.pos as int;
            let ghost lhs = expr_view(expr);
            let op = match self.peek() {
                Token::Plus => Some(BinOp::Add),
                Token::Minus => Some(BinOp::Sub),
                _ => None,
            };
            if op.is_none() {
                break;
            }
            let op = op.unwrap();
            self.advance();
            proof {
                assert(self.pos == q + 1);
                assert(level_op(Level::Term, tok_at(ts, q)) == Some(op));
                assert(operand_at(ts, q + 1, Level::Term) == level_at(ts, q + 1, Level::Factor));
            }
            let rhs = match self.parse_factor() {
                Ok(e) => e,
                Err(e) => {
                    return Err(e);
                },
            };
            expr = Expr::Binary { op, lhs: Box::new(expr), rhs: Box::new(rhs) };
            proof {
                assert(expr_view(expr) == binary(op, lhs, expr_view(rhs)));
            }
        }
        Ok(expr)
    }

    fn parse_factor(&mut self) -> (r: Result<Expr, ParseError>)
        requires
            old(self).wf(),
        ensures
            final(self).wf(),
            final(self).tokens == old(self).tokens,
            expr_result(r, final(self).pos as int, level_at(old(self).tokens@, old(self).pos as int, Level::Factor)),
            r is Ok ==> advanced(old(self).tokens@, old(self).pos as int, final(self).pos as int),
        decreases old(self).tokens@.len() - old(self).pos, 10nat,
    {
        let ghost ts = self.tokens@;
        let ghost p0 = self.pos as int;
        let mut expr = match self.parse_unary() {
            Ok(e) => e,
            Err(e) => {
                return Err(e);
            },
        };
        loop
            invariant
                self.wf(),
                self.tokens == old(self).tokens,
                self.tokens@ == ts,
                p0 == old(self).pos,
                advanced(ts, p0, self.pos as int),
                level_at(ts, p0, Level::Factor) == level_rest(ts, self.pos as int, Level::Factor, expr_view(expr)),
            ensures
                self.wf(),
                self.tokens == old(self).tokens,
                advanced(ts, p0, self.pos as int),
                level_at(ts, p0, Level::Factor) == Ok::<(ExprView, int), SyntaxError>((expr_view(expr), self.pos as int)),
            decreases ts.len() - self.pos,
        {
            let ghost q = self.pos as int;
            let ghost lhs = expr_view(expr);
            let op = match self.peek() {
                Token::Star => Some(BinOp::Mul),
                Token::Slash => Some(BinOp::Div),
                Token::Percent => Some(BinOp::Mod),
                _ => None,
            };
            if op.is_none() {
                break;
            }
            let op = op.unwrap();
            self.advance();
            proof {
                assert(self.pos == q + 1);
                assert(level_op(Level::Factor, tok_at(ts, q)) == Some(op));
                assert(operand_at(ts, q + 1, Level::Factor) == unary_at(ts, q + 1));
            }
            let rhs = match self.parse_unary() {
                Ok(e) => e,
                Err(e) => {
                    return Err(e);
                },
            };
            expr = Expr::Binary { op, lhs: Box::new(expr), rhs: Box::new(rhs) };
            proof {
                assert(expr_view(expr) == binary(op, lhs, expr_view(rhs)));
            }
        }
        Ok(expr)
    }
}


impl Parser {
    fn parse_expr(&mut self) -> (r: Result<Expr, ParseError>)
        requires
            old(self).wf(),
        ensures
            final(self).wf(),
            final(self).tokens == old(self).tokens,
            expr_result(r, final(self).pos as int, expr_at(old(self).tokens@, old(self).pos as int)),
            r is Ok ==> advanced(old(self).tokens@, old(self).pos as int, final(self).pos as int),
        decreases old(self).tokens@.len() - old(self).pos, 22nat,
    {
        self.parse_assignment()
    }

    /// Parses the lower-precedence chain first; a bare identifier followed
    /// by `=` then becomes an assignment (right-associative).
    fn parse_assignment(&mut self) -> (r: Result<Expr, ParseError>)
        requires
            old(self).wf(),
        ensures
            final(self).wf(),
            final(self).tokens == old(self).tokens,
            expr_result(r, final(self).pos as int, assignment_at(old(self).tokens@, old(self).pos as int)),
            r is Ok ==> advanced(old(self).tokens@, old(self).pos as int, final(self).pos as int),
        decreases old(self).tokens@.len() - old(self).pos, 21nat,
    {
        let ghost ts = self.tokens@;
        let ghost p0 = self.pos as int;
        let expr = match self.parse_logic_or() {
            Ok(e) => e,
            Err(e) => {
                return Err(e);
            },
        };
        let ghost q = self.pos as int;
        if self.matches(&Token::Eq) {
            let value = match self.parse_assignment() {
                Ok(v) => v,
                Err(e) => {
                    return Err(e);
                },
            };
            match expr {
                Expr::Ident(name) => Ok(Expr::Assign { name, value: Box::new(value) }),
                _ => Err(self.error("invalid assignment target")),
            }
        } else {
            Ok(expr)
        }
    }

    fn parse_unary(&mut self) -> (r: Result<Expr, ParseError>)
        requires
            old(self).wf(),
        ensures
            final(self).wf(),
            final(self).tokens == old(self).tokens,
            expr_result(r, final(self).pos as int, unary_at(old(self).tokens@, old(self).pos as int)),
            r is Ok ==> advanced(old(self).tokens@, old(self).pos as int, final(self).pos as int),
        decreases old(self).tokens@.len() - old(self).pos, 8nat,
    {
        let op = match self.peek() {
            Token::Minus => Some(UnOp::Neg),
            Token::Bang => Some(UnOp::Not),
            _ => None,
        };
        match op {
            Some(op) => {
                self.advance();
                match self.parse_unary() {
                    Ok(expr) => Ok(Expr::Unary { op, expr: Box::new(expr) }),
                    Err(e) => Err(e),
                }
            },
            None => self.parse_call(),
        }
    }

    fn parse_call(&mut self) -> (r: Result<Expr, ParseError>)
        requires
            old(self).wf(),
        ensures
            final(self).wf(),
            final(self).tokens == old(self).tokens,
            expr_result(r, final(self).pos as int, call_at(old(self).tokens@, old(self).pos as int)),
            r is Ok ==> advanced(old(self).tokens@, old(self).pos as int, final(self).pos as int),
        decreases old(self).tokens@.len() - old(self).pos, 7nat,
    {
        let ghost ts = self.tokens@;
        let expr = match self.parse_primary() {
            Ok(e) => e,
            Err(e) => {
                return Err(e);
            },
        };
        if self.check(&Token::LParen) {
            let callee = match expr {
                Expr::Ident(name) => name,
                _ => {
                    return Err(self.error("expression is not callable"));
                },
            };
            self.advance();  // consume '('
            let args = match self.parse_args() {
                Ok(a) => a,
                Err(e) => {
                    return Err(e);
                },
            };
            match self.expect(&Token::RParen, "after call arguments") {
                Ok(_) => {
                    // Only an identifier can be called: a further
                    // `(...)` after a call is refused.
                    if self.check(&Token::LParen) {
                        return Err(self.error("expression is not callable"));
                    }
                    proof {
                        lemma_call_view(callee, args);
                    }
                    let e = Expr::Call { callee, args };
                    Ok(e)
                },
                Err(e) => Err(e),
            }
        } else {
            Ok(expr)
        }
    }

    fn parse_args(&mut self) -> (r: Result<Vec<Expr>, ParseError>)
        requires
            old(self).wf(),
        ensures
            final(self).wf(),
            final(self).tokens == old(self).tokens,
            args_result(r, final(self).pos as int, args_at(old(self).tokens@, old(self).pos as int)),
            r is Ok ==> old(self).pos <= final(self).pos <= old(self).tokens@.len(),
        decreases old(self).tokens@.len() - old(self).pos, 24nat,
    {
        let ghost ts = self.tokens@;
        let ghost p0 = self.pos as int;
        let mut args: Vec<Expr> = Vec::new();
        proof {
            assert(exprs_view(args@) =~= Seq::<ExprView>::empty());
        }
        if self.check(&Token::RParen) {
            return Ok(args);
        }
        loop
            invariant_except_break
                args_at(ts, p0) == args_from(ts, self.pos as int, exprs_view(args@)),
            invariant
                self.wf(),
                self.tokens == old(self).tokens,
                self.tokens@ == ts,
                p0 == old(self).pos,
                p0 <= self.pos,
            ensures
                self.wf(),
                self.tokens == old(self).tokens,
                p0 <= self.pos,
                args_at(ts, p0) == Ok::<(Seq<ExprView>, int), SyntaxError>((exprs_view(args@), self.pos as int)),
            decreases ts.len() - self.pos,
        {
            let e = match self.parse_expr() {
                Ok(e) => e,
                Err(e) => {
                    return Err(e);
                },
            };
            let ghost before = args@;
            args.push(e);
            proof {
                assert(exprs_view(args@) =~= exprs_view(before).push(expr_view(e)));
            }
            if !self.matches(&Token::Comma) {
                break;
            }
        }
        Ok(args)
    }

    fn parse_primary(&mut self) -> (r: Result<Expr, ParseError>)
        requires
            old(self).wf(),
        ensures
            final(self).wf(),
            final(self).tokens == old(self).tokens,
            expr_result(r, final(self).pos as int, primary_at(old(self).tokens@, old(self).pos as int)),
            r is Ok ==> advanced(old(self).tokens@, old(self).pos as int, final(self).pos as int),
        decreases old(self).tokens@.len() - old(self).pos, 6nat,
    {
        match self.peek() {
            Token::Int(n) => {
                self.advance();
                Ok(Expr::IntLit(n))
            },
            Token::True => {
                self.advance();
                Ok(Expr::BoolLit(true))
            },
            Token::False => {
                self.advance();
                Ok(Expr::BoolLit(false))
            },
            Token::Ident(name) => {
                self.advance();
                Ok(Expr::Ident(name))
            },
            Token::LParen => {
                self.advance();
                let expr = match self.parse_expr() {
                    Ok(e) => e,
                    Err(e) => {
                        return Err(e);
                    },
                };
                match self.expect(&Token::RParen, "to close parenthesized expression") {
                    Ok(_) => Ok(expr),
                    Err(e) => Err(e),
                }
            },
            Token::LBrace => match self.parse_block() {
                Ok(b) => Ok(Expr::Block(b)),
                Err(e) => Err(e),
            },
            Token::If => self.parse_if_expr(),
            other => Err(
                ParseError {
                    message: String::from_str("expected an expression"),
                    found: other,
                    pos: self.pos,
                },
            ),
        }
    }

    fn parse_if_expr(&mut self) -> (r: Result<Expr, ParseError>)
        requires
            old(self).wf(),
        ensures
            final(self).wf(),
            final(self).tokens == old(self).tokens,
            expr_result(r, final(self).pos as int, if_at(old(self).tokens@, old(self).pos as int)),
            r is Ok ==> advanced(old(self).tokens@, old(self).pos as int, final(self).pos as int),
        decreases old(self).tokens@.len() - old(self).pos, 5nat,
    {
        let ghost ts = self.tokens@;
        let ghost p0 = self.pos as int;
        match self.expect(&Token::If, "at start of if expression") {
            Ok(_) => {},
            Err(e) => {
                return Err(e);
            },
        }
        let ghost p1 = self.pos as int;
        // The condition takes no parentheses.
        let cond = match self.parse_expr() {
            Ok(e) => e,
            Err(e) => {
                return Err(e);
            },
        };
        let ghost p2 = self.pos as int;
        let then_branch = match self.parse_block() {
            Ok(b) => b,
            Err(e) => {
                return Err(e);
            },
        };
        let ghost p3 = self.pos as int;
        assert(advanced(ts, p0, p2) && advanced(ts, p0, p3));
        let else_branch = if self.matches(&Token::Else) {
            assert(self.pos == p3 + 1);
            if self.check(&Token::If) {
                match self.parse_if_expr() {
                    Ok(e) => {
                        assert(else_view(ElseBranch::If(Box::new(e))) == ElseView::If(
                            Box::new(expr_view(e)),
                        ));
                        Some(Box::new(ElseBranch::If(Box::new(e))))
                    },
                    Err(e) => {
                        return Err(e);
                    },
                }
            } else {
                match self.parse_block() {
                    Ok(b) => {
                        assert(else_view(ElseBranch::Block(b)) == ElseView::Block(block_view(b)));
                        Some(Box::new(ElseBranch::Block(b)))
                    },
                    Err(e) => {
                        return Err(e);
                    },
                }
            }
        } else {
            None
        };
        Ok(Expr::If { cond: Box::new(cond), then_branch, else_branch })
    }
}


proof fn lemma_call_view(callee: String, args: Vec<Expr>)
    ensures
        expr_view(Expr::Call { callee, args }) == (ExprView::Call {
            callee: callee@,
            args: exprs_view(args@),
        }),
{
    let e = Expr::Call { callee, args };
    match e {
        Expr::Call { callee: c2, args: a2 } => {
            assert(c2 == callee && a2 == args);
            let v = expr_view(e);
            assert(v is Call);
            assert(v->Call_args =~= exprs_view(args@));
        },
        _ => {},
    }
}

pub open spec fn tail_view(t: Option<Box<Expr>>) -> Option<Box<ExprView>> {
    match t {
        None => None,
        Some(e) => Some(Box::new(expr_view(*e))),
    }
}

impl Parser {
    fn parse_block(&mut self) -> (r: Result<Block, ParseError>)
        requires
            old(self).wf(),
        ensures
            final(self).wf(),
            final(self).tokens == old(self).tokens,
            block_result(r, final(self).pos as int, block_at(old(self).tokens@, old(self).pos as int)),
            r is Ok ==> advanced(old(self).tokens@, old(self).pos as int, final(self).pos as int),
        decreases old(self).tokens@.len() - old(self).pos, 5nat,
    {
        let ghost ts = self.tokens@;
        let ghost p0 = self.pos as int;
        match self.expect(&Token::LBrace, "to start block") {
            Ok(_) => {},
            Err(e) => {
                return Err(e);
            },
        }
        let ghost p1 = self.pos as int;
        let mut stmts: Vec<Stmt> = Vec::new();
        let mut tail: Option<Box<Expr>> = None;
        proof {
            assert(stmts_view(stmts@) =~= Seq::<StmtView>::empty());
        }
        loop
            invariant_except_break
                tail is None,
                block_items(ts, p1, seq![]) == block_items(ts, self.pos as int, stmts_view(stmts@)),
            invariant
                self.wf(),
                self.tokens == old(self).tokens,
                self.tokens@ == ts,
                p0 == old(self).pos,
                p0 < p1 <= self.pos,
                expect_at(ts, p0, Token::LBrace, "to start block"@) == Ok::<int, SyntaxError>(p1),
            ensures
                self.wf(),
                self.tokens == old(self).tokens,
                p0 < self.pos,
                block_items(ts, p1, seq![]) == Ok::<(Seq<StmtView>, Option<Box<ExprView>>, int), SyntaxError>(
                    (stmts_view(stmts@), tail_view(tail), self.pos as int),
                ),
            decreases ts.len() - self.pos,
        {
            let ghost q = self.pos as int;
            if self.check(&Token::RBrace) {
                break;
            }
            if self.starts_stmt_keyword() {
                let st = match self.parse_stmt() {
                    Ok(v) => v,
                    Err(e) => {
                        proof {
                            assert(block_items(ts, q, stmts_view(stmts@)) == Err::<
                                (Seq<StmtView>, Option<Box<ExprView>>, int),
                                SyntaxError,
                            >(e@));
                        }
                        return Err(e);
                    },
                };
                let ghost before = stmts@;
                stmts.push(st);
                proof {
                    assert(stmts_view(stmts@) =~= stmts_view(before).push(stmt_view(st)));
                }
                continue;
            }
            let expr = match self.parse_expr() {
                Ok(v) => v,
                Err(e) => {
                    proof {
                        assert(block_items(ts, q, stmts_view(stmts@)) == Err::<
                            (Seq<StmtView>, Option<Box<ExprView>>, int),
                            SyntaxError,
                        >(e@));
                    }
                    return Err(e);
                },
            };
            let is_block_like = match expr {
                Expr::If { .. } => true,
                Expr::Block(_) => true,
                _ => false,
            };
            let ghost before = stmts@;
            if self.matches(&Token::Semicolon) {
                // An explicit `;` always makes a statement, whatever the expression.
                stmts.push(Stmt::Expr(expr));
                proof {
                    assert(stmts_view(stmts@) =~= stmts_view(before).push(StmtView::Expr(expr_view(expr))));
                }
            } else if self.check(&Token::RBrace) {
                // Nothing follows: this is the block's value.
                tail = Some(Box::new(expr));
                break;
            } else if is_block_like {
                // Block-like expressions (`if`, `{}`) need no `;` to be a statement.
                stmts.push(Stmt::Expr(expr));
                proof {
                    assert(stmts_view(stmts@) =~= stmts_view(before).push(StmtView::Expr(expr_view(expr))));
                }
            } else {
                // More tokens follow with no `;` and no `}` (e.g. `x + 1 y`).
                let e = self.error("expected `;` after expression statement");
                proof {
                    assert(block_items(ts, q, stmts_view(stmts@)) == Err::<
                        (Seq<StmtView>, Option<Box<ExprView>>, int),
                        SyntaxError,
                    >(e@));
                }
                return Err(e);
            }
        }
        match self.expect(&Token::RBrace, "to close block") {
            Ok(_) => {},
            Err(e) => {
                return Err(e);
            },
        }
        let b = Block { stmts, tail };
        proof {
            assert(block_view(b).stmts =~= stmts_view(stmts@));
        }
        Ok(b)
    }

    /// Whether the next token starts a statement that is not an expression
    /// (`let`, `return`, `while`).
    fn starts_stmt_keyword(&self) -> (r: bool)
        requires
            self.wf(),
        ensures
            r == (tok_at(self.tokens@, self.pos as int) is Let || tok_at(self.tokens@, self.pos as int) is Return
                || tok_at(self.tokens@, self.pos as int) is While),
    {
        match self.peek() {
            Token::Let => true,
            Token::Return => true,
            Token::While => true,
            _ => false,
        }
    }

    /// Parses a `let`, `return` or `while` statement; the caller has
    /// checked `starts_stmt_keyword`.
    fn parse_stmt(&mut self) -> (r: Result<Stmt, ParseError>)
        requires
            old(self).wf(),
            tok_at(old(self).tokens@, old(self).pos as int) is Let || tok_at(
                old(self).tokens@,
                old(self).pos as int,
            ) is Return || tok_at(old(self).tokens@, old(self).pos as int) is While,
        ensures
            final(self).wf(),
            final(self).tokens == old(self).tokens,
            stmt_result(r, final(self).pos as int, stmt_at(old(self).tokens@, old(self).pos as int)),
            r is Ok ==> advanced(old(self).tokens@, old(self).pos as int, final(self).pos as int),
        decreases old(self).tokens@.len() - old(self).pos, 26nat,
    {
        match self.peek() {
            Token::Let => self.parse_let_stmt(),
            Token::Return => self.parse_return_stmt(),
            Token::While => self.parse_while_stmt(),
            _ => Err(self.error("no progress")),
        }
    }

    fn parse_let_stmt(&mut self) -> (r: Result<Stmt, ParseError>)
        requires
            old(self).wf(),
        ensures
            final(self).wf(),
            final(self).tokens == old(self).tokens,
            stmt_result(r, final(self).pos as int, let_at(old(self).tokens@, old(self).pos as int)),
            r is Ok ==> advanced(old(self).tokens@, old(self).pos as int, final(self).pos as int),
        decreases old(self).tokens@.len() - old(self).pos, 25nat,
    {
        match self.expect(&Token::Let, "at start of let statement") {
            Ok(_) => {},
            Err(e) => {
                return Err(e);
            },
        }
        let mutable = self.matches(&Token::Mut);
        let name = match self.expect_ident() {
            Ok(v) => v,
            Err(e) => {
                return Err(e);
            },
        };
        let ty = if self.matches(&Token::Colon) {
            Some(match self.parse_type() {
            Ok(v) => v,
            Err(e) => {
                return Err(e);
            },
        })
        } else {
            None
        };
        match self.expect(&Token::Eq, "in let statement") {
            Ok(_) => {},
            Err(e) => {
                return Err(e);
            },
        }
        let value = match self.parse_expr() {
            Ok(v) => v,
            Err(e) => {
                return Err(e);
            },
        };
        match self.expect(&Token::Semicolon, "after let statement") {
            Ok(_) => {},
            Err(e) => {
                return Err(e);
            },
        }
        Ok(Stmt::Let { name, mutable, ty, value })
    }

    fn parse_return_stmt(&mut self) -> (r: Result<Stmt, ParseError>)
        requires
            old(self).wf(),
        ensures
            final(self).wf(),
            final(self).tokens == old(self).tokens,
            stmt_result(r, final(self).pos as int, return_at(old(self).tokens@, old(self).pos as int)),
            r is Ok ==> advanced(old(self).tokens@, old(self).pos as int, final(self).pos as int),
        decreases old(self).tokens@.len() - old(self).pos, 25nat,
    {
        match self.expect(&Token::Return, "at start of return statement") {
            Ok(_) => {},
            Err(e) => {
                return Err(e);
            },
        }
        let value = if self.check(&Token::Semicolon) {
            None
        } else {
            Some(match self.parse_expr() {
            Ok(v) => v,
            Err(e) => {
                return Err(e);
            },
        })
        };
        match self.expect(&Token::Semicolon, "after return statement") {
            Ok(_) => {},
            Err(e) => {
                return Err(e);
            },
        }
        Ok(Stmt::Return(value))
    }

    fn parse_while_stmt(&mut self) -> (r: Result<Stmt, ParseError>)
        requires
            old(self).wf(),
        ensures
            final(self).wf(),
            final(self).tokens == old(self).tokens,
            stmt_result(r, final(self).pos as int, while_at(old(self).tokens@, old(self).pos as int)),
            r is Ok ==> advanced(old(self).tokens@, old(self).pos as int, final(self).pos as int),
        decreases old(self).tokens@.len() - old(self).pos, 25nat,
    {
        match self.expect(&Token::While, "at start of while statement") {
            Ok(_) => {},
            Err(e) => {
                return Err(e);
            },
        }
        let cond = match self.parse_expr() {
            Ok(v) => v,
            Err(e) => {
                return Err(e);
            },
        };
        let body = match self.parse_block() {
            Ok(v) => v,
            Err(e) => {
                return Err(e);
            },
        };
        Ok(Stmt::While { cond, body })
    }
}


impl Parser {
    fn parse_params(&mut self) -> (r: Result<Vec<Param>, ParseError>)
        requires
            old(self).wf(),
        ensures
            final(self).wf(),
            final(self).tokens == old(self).tokens,
            params_result(r, final(self).pos as int, params_at(old(self).tokens@, old(self).pos as int)),
            r is Ok ==> old(self).pos <= final(self).pos,
    {
        let ghost ts = self.tokens@;
        let ghost p0 = self.pos as int;
        let mut params: Vec<Param> = Vec::new();
        proof {
            assert(params_view(params@) =~= Seq::<ParamView>::empty());
        }
        if self.check(&Token::RParen) {
            return Ok(params);
        }
        loop
            invariant_except_break
                params_at(ts, p0) == params_from(ts, self.pos as int, params_view(params@)),
            invariant
                self.wf(),
                self.tokens == old(self).tokens,
                self.tokens@ == ts,
                p0 == old(self).pos,
                p0 <= self.pos,
            ensures
                self.wf(),
                self.tokens == old(self).tokens,
                p0 <= self.pos,
                params_at(ts, p0) == Ok::<(Seq<ParamView>, int), SyntaxError>(
                    (params_view(params@), self.pos as int),
                ),
            decreases ts.len() - self.pos,
        {
            let name = match self.expect_ident() {
                Ok(n) => n,
                Err(e) => {
                    return Err(e);
                },
            };
            match self.expect(&Token::Colon, "after parameter name") {
                Ok(_) => {},
                Err(e) => {
                    return Err(e);
                },
            }
            let ty = match self.parse_type() {
                Ok(t) => t,
                Err(e) => {
                    return Err(e);
                },
            };
            let ghost before = params@;
            let param = Param { name, ty };
            params.push(param);
            proof {
                assert(params_view(params@) =~= params_view(before).push(param_view(param)));
            }
            if !self.matches(&Token::Comma) {
                break;
            }
        }
        Ok(params)
    }

    fn parse_function_decl(&mut self) -> (r: Result<FunctionDecl, ParseError>)
        requires
            old(self).wf(),
        ensures
            final(self).wf(),
            final(self).tokens == old(self).tokens,
            function_result(r, final(self).pos as int, function_at(old(self).tokens@, old(self).pos as int)),
            r is Ok ==> advanced(old(self).tokens@, old(self).pos as int, final(self).pos as int),
    {
        let name = match self.expect_ident() {
            Ok(n) => n,
            Err(e) => {
                return Err(e);
            },
        };
        match self.expect(&Token::LParen, "after function name") {
            Ok(_) => {},
            Err(e) => {
                return Err(e);
            },
        }
        let params = match self.parse_params() {
            Ok(ps) => ps,
            Err(e) => {
                return Err(e);
            },
        };
        match self.expect(&Token::RParen, "after parameters") {
            Ok(_) => {},
            Err(e) => {
                return Err(e);
            },
        }
        // The return type is `()` when none is written.
        let return_type = if self.matches(&Token::Arrow) {
            match self.parse_type() {
                Ok(t) => t,
                Err(e) => {
                    return Err(e);
                },
            }
        } else {
            Type::Unit
        };
        let body = match self.parse_block() {
            Ok(b) => b,
            Err(e) => {
                return Err(e);
            },
        };
        let f = FunctionDecl { name, params, return_type, body };
        proof {
            assert(function_view(f).params =~= params_view(params@));
        }
        Ok(f)
    }

    fn parse_item(&mut self) -> (r: Result<Item, ParseError>)
        requires
            old(self).wf(),
        ensures
            final(self).wf(),
            final(self).tokens == old(self).tokens,
            match r {
                Ok(Item::Function(f)) => item_at(old(self).tokens@, old(self).pos as int) == Ok::<(FunctionView, int), SyntaxError>(
                    (function_view(f), final(self).pos as int),
                ),
                Err(e) => item_at(old(self).tokens@, old(self).pos as int) == Err::<(FunctionView, int), SyntaxError>(e@)
                    && final(self).pos == e.pos,
            },
            r is Ok ==> advanced(old(self).tokens@, old(self).pos as int, final(self).pos as int),
    {
        // Only functions for now.
        match self.expect(&Token::Fn, "at start of item") {
            Ok(_) => {},
            Err(e) => {
                return Err(e);
            },
        }
        match self.parse_function_decl() {
            Ok(f) => Ok(Item::Function(f)),
            Err(e) => Err(e),
        }
    }

    /// Parses items up to `Eof`; stops at the first error.
    pub fn parse_program(&mut self) -> (r: Result<Program, ParseError>)
        requires
            old(self).wf(),
        ensures
            final(self).wf(),
            final(self).tokens() == old(self).tokens(),
            program_result(r, items_from(old(self).tokens(), old(self).position(), seq![])),
            r matches Err(e) ==> final(self).position() == e.pos,
    {
        let ghost ts = self.tokens@;
        let ghost p0 = self.pos as int;
        let mut items: Vec<Item> = Vec::new();
        proof {
            assert(program_view(Program { items }) =~= Seq::<FunctionView>::empty());
        }
        while !self.check(&Token::Eof)
            invariant
                self.wf(),
                self.tokens == old(self).tokens,
                self.tokens@ == ts,
                p0 == old(self).pos,
                items_from(ts, p0, seq![]) == items_from(
                    ts,
                    self.pos as int,
                    program_view(Program { items }),
                ),
            decreases ts.len() - self.pos,
        {
            let ghost q = self.pos as int;
            let item = match self.parse_item() {
                Ok(it) => it,
                Err(e) => {
                    return Err(e);
                },
            };
            let ghost before = Program { items };
            let ghost fv = match &item {
                Item::Function(f) => function_view(*f),
            };
            items.push(item);
            proof {
                assert(program_view(Program { items }) =~= program_view(before).push(fv));
            }
        }
        Ok(Program { items })
    }
}

} // verus!
