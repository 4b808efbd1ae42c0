//! Fuel only bounds a run: a run that finishes within some fuel has the
//! same result, and prints the same output, with any larger amount.
use vstd::prelude::*;

use crate::ast::{BinOp, Block, ElseBranch, Expr, FunctionDecl, Stmt};
use crate::interpreter::Value;
use crate::semantics::{
    call_fn, eval_args, eval_binary, eval_expr, lookup_fn, run_block, run_program, run_stmt,
    run_stmts, run_while, Fault, Flow, Machine,
};

verus! {

proof fn lemma_more_fuel_expr(fns: Seq<FunctionDecl>, f1: nat, f2: nat, e: Expr, m: Machine)
    requires
        f1 <= f2,
        eval_expr(fns, f1, e, m).0 != Err::<Flow, Fault>(Fault::OutOfFuel),
    ensures
        eval_expr(fns, f2, e, m) == eval_expr(fns, f1, e, m),
    decreases f1,
{
    let g1 = (f1 - 1) as nat;
    let g2 = (f2 - 1) as nat;
    match e {
        Expr::IntLit(_) => {},
        Expr::BoolLit(_) => {},
        Expr::Ident(_) => {},
        Expr::Unary { op, expr } => {
            lemma_more_fuel_expr(fns, g1, g2, *expr, m);
        },
        Expr::Binary { op, lhs, rhs } => {
            lemma_more_fuel_binary(fns, g1, g2, op, *lhs, *rhs, m);
        },
        Expr::Assign { name, value } => {
            lemma_more_fuel_expr(fns, g1, g2, *value, m);
        },
        Expr::Call { callee, args } => {
            lemma_more_fuel_args(fns, g1, g2, args@, 0, seq![], m);
            let (r, vals, m1) = eval_args(fns, g1, args@, 0, seq![], m);
            if r == Ok::<Option<Value>, Fault>(None) {
                if let Some(fd) = lookup_fn(fns, callee@) {
                    if (call_fn(fns, g1, fd, vals, m1.out).0 != Err::<Value, Fault>(Fault::OutOfFuel)) {
                        lemma_more_fuel_call(fns, g1, g2, fd, vals, m1.out);
                    }
                }
            }
        },
        Expr::If { cond, then_branch, else_branch } => {
            lemma_more_fuel_expr(fns, g1, g2, *cond, m);
            let (r, m1) = eval_expr(fns, g1, *cond, m);
            match r {
                Ok(Flow::Normal(Value::Bool(true))) => {
                    lemma_more_fuel_block(fns, g1, g2, then_branch, m1);
                },
                Ok(Flow::Normal(Value::Bool(false))) => match else_branch {
                    None => {},
                    Some(br) => match *br {
                        ElseBranch::Block(b) => {
                            lemma_more_fuel_block(fns, g1, g2, b, m1);
                        },
                        ElseBranch::If(inner) => {
                            lemma_more_fuel_expr(fns, g1, g2, *inner, m1);
                        },
                    },
                },
                _ => {},
            }
        },
        Expr::Block(b) => {
            lemma_more_fuel_block(fns, g1, g2, b, m);
        },
    }
}

proof fn lemma_more_fuel_binary(
    fns: Seq<FunctionDecl>,
    f1: nat,
    f2: nat,
    op: BinOp,
    lhs: Expr,
    rhs: Expr,
    m: Machine,
)
    requires
        f1 <= f2,
        eval_binary(fns, f1, op, lhs, rhs, m).0 != Err::<Flow, Fault>(Fault::OutOfFuel),
    ensures
        eval_binary(fns, f2, op, lhs, rhs, m) == eval_binary(fns, f1, op, lhs, rhs, m),
    decreases f1,
{
    let g1 = (f1 - 1) as nat;
    let g2 = (f2 - 1) as nat;
    lemma_more_fuel_expr(fns, g1, g2, lhs, m);
    let (r1, m1) = eval_expr(fns, g1, lhs, m);
    if let Ok(Flow::Normal(_)) = r1 {
        if eval_expr(fns, g1, rhs, m1).0 != Err::<Flow, Fault>(Fault::OutOfFuel) {
            lemma_more_fuel_expr(fns, g1, g2, rhs, m1);
        }
    }
}

proof fn lemma_more_fuel_args(
    fns: Seq<FunctionDecl>,
    f1: nat,
    f2: nat,
    args: Seq<Expr>,
    i: int,
    acc: Seq<Value>,
    m: Machine,
)
    requires
        f1 <= f2,
        eval_args(fns, f1, args, i, acc, m).0 != Err::<Option<Value>, Fault>(Fault::OutOfFuel),
    ensures
        eval_args(fns, f2, args, i, acc, m) == eval_args(fns, f1, args, i, acc, m),
    decreases f1,
{
    if 0 <= i < args.len() {
        let g1 = (f1 - 1) as nat;
        let g2 = (f2 - 1) as nat;
        lemma_more_fuel_expr(fns, g1, g2, args[i], m);
        let (r, m1) = eval_expr(fns, g1, args[i], m);
        if let Ok(Flow::Normal(v)) = r {
            lemma_more_fuel_args(fns, g1, g2, args, i + 1, acc.push(v), m1);
        }
    }
}

proof fn lemma_more_fuel_block(fns: Seq<FunctionDecl>, f1: nat, f2: nat, b: Block, m: Machine)
    requires
        f1 <= f2,
        run_block(fns, f1, b, m).0 != Err::<Flow, Fault>(Fault::OutOfFuel),
    ensures
        run_block(fns, f2, b, m) == run_block(fns, f1, b, m),
    decreases f1,
{
    let g1 = (f1 - 1) as nat;
    let g2 = (f2 - 1) as nat;
    let m0 = Machine { scopes: m.scopes.push(Map::empty()), out: m.out };
    lemma_more_fuel_stmts(fns, g1, g2, b.stmts@, 0, m0);
    let (r, m1) = run_stmts(fns, g1, b.stmts@, 0, m0);
    if r == Ok::<Option<Value>, Fault>(None) {
        if let Some(t) = b.tail {
            lemma_more_fuel_expr(fns, g1, g2, *t, m1);
        }
    }
}

proof fn lemma_more_fuel_stmts(
    fns: Seq<FunctionDecl>,
    f1: nat,
    f2: nat,
    stmts: Seq<Stmt>,
    i: int,
    m: Machine,
)
    requires
        f1 <= f2,
        run_stmts(fns, f1, stmts, i, m).0 != Err::<Option<Value>, Fault>(Fault::OutOfFuel),
    ensures
        run_stmts(fns, f2, stmts, i, m) == run_stmts(fns, f1, stmts, i, m),
    decreases f1,
{
    if 0 <= i < stmts.len() {
        let g1 = (f1 - 1) as nat;
        let g2 = (f2 - 1) as nat;
        lemma_more_fuel_stmt(fns, g1, g2, stmts[i], m);
        let (r, m1) = run_stmt(fns, g1, stmts[i], m);
        if let Ok(Flow::Normal(_)) = r {
            lemma_more_fuel_stmts(fns, g1, g2, stmts, i + 1, m1);
        }
    }
}

proof fn lemma_more_fuel_stmt(fns: Seq<FunctionDecl>, f1: nat, f2: nat, s: Stmt, m: Machine)
    requires
        f1 <= f2,
        run_stmt(fns, f1, s, m).0 != Err::<Flow, Fault>(Fault::OutOfFuel),
    ensures
        run_stmt(fns, f2, s, m) == run_stmt(fns, f1, s, m),
    decreases f1,
{
    let g1 = (f1 - 1) as nat;
    let g2 = (f2 - 1) as nat;
    match s {
        Stmt::Let { value, .. } => {
            lemma_more_fuel_expr(fns, g1, g2, value, m);
        },
        Stmt::Return(None) => {},
        Stmt::Return(Some(e)) => {
            lemma_more_fuel_expr(fns, g1, g2, e, m);
        },
        Stmt::While { cond, body } => {
            lemma_more_fuel_while(fns, g1, g2, cond, body, m);
        },
        Stmt::Expr(e) => {
            lemma_more_fuel_expr(fns, g1, g2, e, m);
        },
    }
}

proof fn lemma_more_fuel_while(
    fns: Seq<FunctionDecl>,
    f1: nat,
    f2: nat,
    cond: Expr,
    body: Block,
    m: Machine,
)
    requires
        f1 <= f2,
        run_while(fns, f1, cond, body, m).0 != Err::<Flow, Fault>(Fault::OutOfFuel),
    ensures
        run_while(fns, f2, cond, body, m) == run_while(fns, f1, cond, body, m),
    decreases f1,
{
    let g1 = (f1 - 1) as nat;
    let g2 = (f2 - 1) as nat;
    lemma_more_fuel_expr(fns, g1, g2, cond, m);
    let (r, m1) = eval_expr(fns, g1, cond, m);
    if r == Ok::<Flow, Fault>(Flow::Normal(Value::Bool(true))) {
        lemma_more_fuel_block(fns, g1, g2, body, m1);
        let (r2, m2) = run_block(fns, g1, body, m1);
        if let Ok(Flow::Normal(_)) = r2 {
            lemma_more_fuel_while(fns, g1, g2, cond, body, m2);
        }
    }
}

proof fn lemma_more_fuel_call(
    fns: Seq<FunctionDecl>,
    f1: nat,
    f2: nat,
    fd: FunctionDecl,
    args: Seq<Value>,
    out: Seq<Value>,
)
    requires
        f1 <= f2,
        call_fn(fns, f1, fd, args, out).0 != Err::<Value, Fault>(Fault::OutOfFuel),
    ensures
        call_fn(fns, f2, fd, args, out) == call_fn(fns, f1, fd, args, out),
    decreases f1,
{
    let g1 = (f1 - 1) as nat;
    let g2 = (f2 - 1) as nat;
    let scope = crate::semantics::bind_params(
        fd.params@,
        args,
        crate::semantics::min(fd.params@.len() as int, args.len() as int),
    );
    lemma_more_fuel_block(fns, g1, g2, fd.body, Machine { scopes: seq![scope], out });
}

/// Fuel only bounds a run: if a program's run does not run out of fuel
/// with `f1`, it has the same result and the same output with any
/// `f2 >= f1`.
pub proof fn more_fuel_same_run(fns: Seq<FunctionDecl>, f1: nat, f2: nat)
    requires
        f1 <= f2,
        run_program(fns, f1).0 != Err::<Value, Fault>(Fault::OutOfFuel),
    ensures
        run_program(fns, f2) == run_program(fns, f1),
{
    if let Some(fd) = lookup_fn(fns, "main"@) {
        lemma_more_fuel_call(fns, f1, f2, fd, seq![], seq![]);
    }
}

} // verus!
