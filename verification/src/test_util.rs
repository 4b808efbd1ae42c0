//! AST-builder helpers, so that programs written by hand describe intent
//! instead of drowning in `Box::new()` noise.
use vstd::prelude::*;

use crate::ast::{BinOp, Block, Expr, FunctionDecl, Item, Param, Program, Stmt, Type};

verus! {

pub fn int_lit(n: i64) -> (e: Expr)
    ensures
        e == Expr::IntLit(n),
{
    Expr::IntLit(n)
}

pub fn boolean(b: bool) -> (e: Expr)
    ensures
        e == Expr::BoolLit(b),
{
    Expr::BoolLit(b)
}

pub fn ident(n: &str) -> (e: Expr)
    ensures
        e matches Expr::Ident(s) && s@ == n@,
{
    Expr::Ident(n.to_owned())
}

pub fn bin(op: BinOp, l: Expr, r: Expr) -> (e: Expr)
    ensures
        e == (Expr::Binary { op, lhs: Box::new(l), rhs: Box::new(r) }),
{
    Expr::Binary { op, lhs: Box::new(l), rhs: Box::new(r) }
}

pub fn call(name: &str, args: Vec<Expr>) -> (e: Expr)
    ensures
        e matches Expr::Call { callee, args: a } && callee@ == name@ && a == args,
{
    Expr::Call { callee: name.to_owned(), args }
}

pub fn block(stmts: Vec<Stmt>, tail: Option<Expr>) -> (b: Block)
    ensures
        b.stmts == stmts,
        tail is None ==> b.tail is None,
        tail matches Some(t) ==> b.tail == Some(Box::new(t)),
{
    let tail = match tail {
        Some(t) => Some(Box::new(t)),
        None => None,
    };
    Block { stmts, tail }
}

pub fn let_stmt(name: &str, mutable: bool, ty: Option<Type>, value: Expr) -> (s: Stmt)
    ensures
        s matches Stmt::Let { name: n, mutable: m, ty: t, value: v } && n@ == name@ && m
            == mutable && t == ty && v == value,
{
    Stmt::Let { name: name.to_owned(), mutable, ty, value }
}

pub fn param(name: &str, ty: Type) -> (p: Param)
    ensures
        p.name@ == name@,
        p.ty == ty,
{
    Param { name: name.to_owned(), ty }
}

pub fn func(name: &str, params: Vec<Param>, return_type: Type, body: Block) -> (f: FunctionDecl)
    ensures
        f.name@ == name@,
        f.params == params,
        f.return_type == return_type,
        f.body == body,
{
    FunctionDecl { name: name.to_owned(), params, return_type, body }
}

pub fn program(fns: Vec<FunctionDecl>) -> (p: Program)
    ensures
        p.items@.len() == fns@.len(),
        forall|i: int| 0 <= i < fns@.len() ==> p.items@[i] == Item::Function(#[trigger] fns@[i]),
{
    let mut items: Vec<Item> = Vec::new();
    let mut fns = fns;
    let ghost all = fns@;
    // Take the declarations from the back, then put them in order.
    let mut rev: Vec<FunctionDecl> = Vec::new();
    while fns.len() > 0
        invariant
            all == fns@ + rev@.reverse(),
        decreases fns@.len(),
    {
        let f = fns.pop().unwrap();
        proof {
            assert(all =~= fns@ + rev@.push(f).reverse());
        }
        rev.push(f);
    }
    while rev.len() > 0
        invariant
            all == items@.map_values(|it: Item| match it {
                Item::Function(f) => f,
            }) + rev@.reverse(),
            forall|i: int| 0 <= i < items@.len() ==> items@[i] is Function,
        decreases rev@.len(),
    {
        let f = rev.pop().unwrap();
        let ghost before = items@;
        items.push(Item::Function(f));
        proof {
            assert(items@.map_values(|it: Item| match it {
                Item::Function(f) => f,
            }) =~= before.map_values(|it: Item| match it {
                Item::Function(f) => f,
            }).push(f));
            assert(all =~= items@.map_values(|it: Item| match it {
                Item::Function(f) => f,
            }) + rev@.reverse());
        }
    }
    proof {
        assert(all =~= items@.map_values(|it: Item| match it {
            Item::Function(f) => f,
        }));
        assert forall|i: int| 0 <= i < fns@.len() implies items@[i] == Item::Function(all[i]) by {
            assert(items@[i] is Function);
        }
    }
    Program { items }
}

} // verus!
