//! The meaning of a program: a big-step semantics over the AST.
//!
//! Every judgement takes a `fuel` bound on its nesting depth (each
//! statement, loop iteration, call and sub-expression spends one unit), so
//! the definitions are total. A program whose run needs more fuel than given
//! ends in `Fault::OutOfFuel`; one that would hit an interpreter invariant
//! violation (an undefined name, an operand of the wrong type, a missing
//! builtin argument) ends in `Fault::Stuck`.
use vstd::prelude::*;

use crate::ast::{BinOp, Block, ElseBranch, Expr, FunctionDecl, Param, Stmt, UnOp};
use crate::builtins::builtin_params;
use crate::interpreter::{RuntimeError, Value};

verus! {

/// How evaluation of an expression, statement or block completed.
#[derive(Debug, Clone, Copy, PartialEq, Eq, Structural)]
pub enum Flow {
    /// Completed with this value.
    Normal(Value),
    /// A `return` is unwinding to the enclosing call, carrying this value.
    Return(Value),
}

/// Why evaluation stopped early.
#[derive(Debug, Clone, Copy, PartialEq, Eq, Structural)]
pub enum Fault {
    /// A condition of the language itself (division by zero, ...).
    Runtime(RuntimeError),
    /// The program is ill-formed in a way the interpreter does not check:
    /// an undefined variable or function, an operand of the wrong type, a
    /// builtin called without an argument.
    Stuck,
    /// The fuel bound was exhausted.
    OutOfFuel,
}

/// The variable scopes (innermost last) and the values printed so far.
pub struct Machine {
    pub scopes: Seq<Map<Seq<char>, Value>>,
    pub out: Seq<Value>,
}

pub open spec fn fits_i32(n: int) -> bool {
    i32::MIN <= n <= i32::MAX
}

/// The value of `name` in the innermost scope that binds it.
pub open spec fn lookup_var(scopes: Seq<Map<Seq<char>, Value>>, name: Seq<char>) -> Option<Value>
    decreases scopes.len(),
{
    if scopes.len() == 0 {
        None
    } else if scopes.last().contains_key(name) {
        Some(scopes.last()[name])
    } else {
        lookup_var(scopes.drop_last(), name)
    }
}

/// Rebinds `name` in the innermost scope that binds it.
pub open spec fn assign_var(scopes: Seq<Map<Seq<char>, Value>>, name: Seq<char>, v: Value) -> Seq<
    Map<Seq<char>, Value>,
>
    decreases scopes.len(),
{
    if scopes.len() == 0 {
        scopes
    } else if scopes.last().contains_key(name) {
        scopes.update(scopes.len() - 1, scopes.last().insert(name, v))
    } else {
        assign_var(scopes.drop_last(), name, v).push(scopes.last())
    }
}

pub(crate) proof fn lemma_assign_var_len(scopes: Seq<Map<Seq<char>, Value>>, name: Seq<char>, v: Value)
    ensures
        assign_var(scopes, name, v).len() == scopes.len(),
    decreases scopes.len(),
{
    if scopes.len() > 0 && !scopes.last().contains_key(name) {
        lemma_assign_var_len(scopes.drop_last(), name, v);
    }
}

/// Binds (or rebinds) `name` in the innermost scope.
pub open spec fn declare_var(scopes: Seq<Map<Seq<char>, Value>>, name: Seq<char>, v: Value) -> Seq<
    Map<Seq<char>, Value>,
> {
    if scopes.len() == 0 {
        scopes
    } else {
        scopes.update(scopes.len() - 1, scopes.last().insert(name, v))
    }
}

pub open spec fn pop_scope(scopes: Seq<Map<Seq<char>, Value>>) -> Seq<Map<Seq<char>, Value>> {
    if scopes.len() == 0 {
        scopes
    } else {
        scopes.drop_last()
    }
}

/// The function that a call of `name` reaches: the last declaration of
/// that name.
pub open spec fn lookup_fn(fns: Seq<FunctionDecl>, name: Seq<char>) -> Option<FunctionDecl>
    decreases fns.len(),
{
    if fns.len() == 0 {
        None
    } else if fns.last().name@ == name {
        Some(fns.last())
    } else {
        lookup_fn(fns.drop_last(), name)
    }
}

/// The scope in which a function body starts: its first `k` parameters
/// bound to its first `k` arguments, in order.
pub open spec fn bind_params(params: Seq<Param>, args: Seq<Value>, k: int) -> Map<Seq<char>, Value>
    decreases k,
{
    if k <= 0 {
        Map::empty()
    } else {
        bind_params(params, args, k - 1).insert(params[k - 1].name@, args[k - 1])
    }
}

pub open spec fn min(a: int, b: int) -> int {
    if a <= b {
        a
    } else {
        b
    }
}

/// Division rounding toward zero, as `i32` division does.
pub open spec fn div_toward_zero(a: int, b: int) -> int {
    if a >= 0 {
        if b > 0 {
            a / b
        } else {
            -(a / (-b))
        }
    } else {
        if b > 0 {
            -((-a) / b)
        } else {
            (-a) / (-b)
        }
    }
}

/// The remainder that goes with `div_toward_zero` (it takes the sign of `a`).
pub open spec fn rem_toward_zero(a: int, b: int) -> int {
    a - b * div_toward_zero(a, b)
}

/// An `i32` result, or overflow.
pub open spec fn checked_i32(n: int) -> Result<Value, Fault> {
    if fits_i32(n) {
        Ok(Value::I32(n as i32))
    } else {
        Err(Fault::Runtime(RuntimeError::IntegerOverflow))
    }
}

pub open spec fn unary_result(op: UnOp, v: Value) -> Result<Value, Fault> {
    match (op, v) {
        (UnOp::Neg, Value::I32(n)) => checked_i32(-n),
        (UnOp::Not, Value::Bool(b)) => Ok(Value::Bool(!b)),
        _ => Err(Fault::Stuck),
    }
}

/// The result of a binary operator other than `&&` and `||` on two values.
pub open spec fn binop_result(op: BinOp, l: Value, r: Value) -> Result<Value, Fault> {
    match (op, l, r) {
        (BinOp::Add, Value::I32(a), Value::I32(b)) => checked_i32(a + b),
        (BinOp::Sub, Value::I32(a), Value::I32(b)) => checked_i32(a - b),
        (BinOp::Mul, Value::I32(a), Value::I32(b)) => checked_i32(a * b),
        (BinOp::Div, Value::I32(a), Value::I32(b)) => if b == 0 {
            Err(Fault::Runtime(RuntimeError::DivisionByZero))
        } else {
            checked_i32(div_toward_zero(a as int, b as int))
        },
        (BinOp::Mod, Value::I32(a), Value::I32(b)) => if b == 0 {
            Err(Fault::Runtime(RuntimeError::ModuloByZero))
        } else if a == i32::MIN && b == -1 {
            Err(Fault::Runtime(RuntimeError::IntegerOverflow))
        } else {
            Ok(Value::I32(rem_toward_zero(a as int, b as int) as i32))
        },
        (BinOp::Lt, Value::I32(a), Value::I32(b)) => Ok(Value::Bool(a < b)),
        (BinOp::Gt, Value::I32(a), Value::I32(b)) => Ok(Value::Bool(a > b)),
        (BinOp::LtEq, Value::I32(a), Value::I32(b)) => Ok(Value::Bool(a <= b)),
        (BinOp::GtEq, Value::I32(a), Value::I32(b)) => Ok(Value::Bool(a >= b)),
        (BinOp::Eq, a, b) => Ok(Value::Bool(a == b)),
        (BinOp::NotEq, a, b) => Ok(Value::Bool(a != b)),
        _ => Err(Fault::Stuck),
    }
}

pub open spec fn eval_expr(fns: Seq<FunctionDecl>, fuel: nat, e: Expr, m: Machine) -> (Result<
    Flow,
    Fault,
>, Machine)
    decreases fuel,
{
    if fuel == 0 {
        (Err(Fault::OutOfFuel), m)
    } else {
        let f = (fuel - 1) as nat;
        match e {
            Expr::IntLit(n) => if fits_i32(n as int) {
                (Ok(Flow::Normal(Value::I32(n as i32))), m)
            } else {
                (Err(Fault::Runtime(RuntimeError::LiteralOutOfRange(n))), m)
            },
            Expr::BoolLit(b) => (Ok(Flow::Normal(Value::Bool(b))), m),
            Expr::Ident(name) => match lookup_var(m.scopes, name@) {
                Some(v) => (Ok(Flow::Normal(v)), m),
                None => (Err(Fault::Stuck), m),
            },
            Expr::Unary { op, expr } => {
                let (r, m1) = eval_expr(fns, f, *expr, m);
                match r {
                    Err(x) => (Err(x), m1),
                    Ok(Flow::Return(v)) => (Ok(Flow::Return(v)), m1),
                    Ok(Flow::Normal(v)) => match unary_result(op, v) {
                        Ok(w) => (Ok(Flow::Normal(w)), m1),
                        Err(x) => (Err(x), m1),
                    },
                }
            },
            Expr::Binary { op, lhs, rhs } => eval_binary(fns, f, op, *lhs, *rhs, m),
            Expr::Assign { name, value } => {
                let (r, m1) = eval_expr(fns, f, *value, m);
                match r {
                    Err(x) => (Err(x), m1),
                    Ok(Flow::Return(v)) => (Ok(Flow::Return(v)), m1),
                    Ok(Flow::Normal(v)) => if lookup_var(m1.scopes, name@) is Some {
                        (
                            Ok(Flow::Normal(Value::Unit)),
                            Machine { scopes: assign_var(m1.scopes, name@, v), out: m1.out },
                        )
                    } else {
                        (Err(Fault::Stuck), m1)
                    },
                }
            },
            Expr::Call { callee, args } => {
                let (r, vals, m1) = eval_args(fns, f, args@, 0, seq![], m);
                match r {
                    Err(x) => (Err(x), m1),
                    Ok(Some(v)) => (Ok(Flow::Return(v)), m1),
                    Ok(None) => if builtin_params(callee@) is Some {
                        if vals.len() >= 1 {
                            (
                                Ok(Flow::Normal(Value::Unit)),
                                Machine { scopes: m1.scopes, out: m1.out.push(vals[0]) },
                            )
                        } else {
                            (Err(Fault::Stuck), m1)
                        }
                    } else {
                        match lookup_fn(fns, callee@) {
                            None => (Err(Fault::Stuck), m1),
                            Some(fd) => {
                                let (rv, out2) = call_fn(fns, f, fd, vals, m1.out);
                                let m2 = Machine { scopes: m1.scopes, out: out2 };
                                match rv {
                                    Ok(v) => (Ok(Flow::Normal(v)), m2),
                                    Err(x) => (Err(x), m2),
                                }
                            },
                        }
                    },
                }
            },
            Expr::If { cond, then_branch, else_branch } => {
                let (r, m1) = eval_expr(fns, f, *cond, m);
                match r {
                    Err(x) => (Err(x), m1),
                    Ok(Flow::Return(v)) => (Ok(Flow::Return(v)), m1),
                    Ok(Flow::Normal(Value::Bool(true))) => run_block(fns, f, then_branch, m1),
                    Ok(Flow::Normal(Value::Bool(false))) => match else_branch {
                        None => (Ok(Flow::Normal(Value::Unit)), m1),
                        Some(br) => match *br {
                            ElseBranch::Block(b) => run_block(fns, f, b, m1),
                            ElseBranch::If(inner) => eval_expr(fns, f, *inner, m1),
                        },
                    },
                    Ok(Flow::Normal(_)) => (Err(Fault::Stuck), m1),
                }
            },
            Expr::Block(b) => run_block(fns, f, b, m),
        }
    }
}

/// A binary operator: `&&`/`||` evaluate their right operand only when the
/// left one does not decide the result; the others evaluate both operands,
/// left first.
pub open spec fn eval_binary(
    fns: Seq<FunctionDecl>,
    fuel: nat,
    op: BinOp,
    lhs: Expr,
    rhs: Expr,
    m: Machine,
) -> (Result<Flow, Fault>, Machine)
    decreases fuel,
{
    if fuel == 0 {
        (Err(Fault::OutOfFuel), m)
    } else {
        let f = (fuel - 1) as nat;
        let (r1, m1) = eval_expr(fns, f, lhs, m);
        match r1 {
            Err(x) => (Err(x), m1),
            Ok(Flow::Return(v)) => (Ok(Flow::Return(v)), m1),
            Ok(Flow::Normal(l)) => if op == BinOp::And || op == BinOp::Or {
                match l {
                    Value::Bool(lb) => if (op == BinOp::And && !lb) || (op == BinOp::Or && lb) {
                        (Ok(Flow::Normal(Value::Bool(lb))), m1)
                    } else {
                        eval_expr(fns, f, rhs, m1)
                    },
                    _ => (Err(Fault::Stuck), m1),
                }
            } else {
                let (r2, m2) = eval_expr(fns, f, rhs, m1);
                match r2 {
                    Err(x) => (Err(x), m2),
                    Ok(Flow::Return(v)) => (Ok(Flow::Return(v)), m2),
                    Ok(Flow::Normal(rv)) => match binop_result(op, l, rv) {
                        Ok(w) => (Ok(Flow::Normal(w)), m2),
                        Err(x) => (Err(x), m2),
                    },
                }
            },
        }
    }
}

/// Call arguments `args[i..]`, left to right, appending their values to
/// `acc`. `Ok(Some(v))` means an argument unwound with `return v`.
pub open spec fn eval_args(
    fns: Seq<FunctionDecl>,
    fuel: nat,
    args: Seq<Expr>,
    i: int,
    acc: Seq<Value>,
    m: Machine,
) -> (Result<Option<Value>, Fault>, Seq<Value>, Machine)
    decreases fuel,
{
    if fuel == 0 {
        (Err(Fault::OutOfFuel), acc, m)
    } else if i < 0 || i >= args.len() {
        (Ok(None), acc, m)
    } else {
        let f = (fuel - 1) as nat;
        let (r, m1) = eval_expr(fns, f, args[i], m);
        match r {
            Err(x) => (Err(x), acc, m1),
            Ok(Flow::Return(v)) => (Ok(Some(v)), acc, m1),
            Ok(Flow::Normal(v)) => eval_args(fns, f, args, i + 1, acc.push(v), m1),
        }
    }
}

/// A block runs in a fresh scope, which it leaves again when it completes
/// normally.
pub open spec fn run_block(fns: Seq<FunctionDecl>, fuel: nat, b: Block, m: Machine) -> (Result<
    Flow,
    Fault,
>, Machine)
    decreases fuel,
{
    if fuel == 0 {
        (Err(Fault::OutOfFuel), m)
    } else {
        let f = (fuel - 1) as nat;
        let m0 = Machine { scopes: m.scopes.push(Map::empty()), out: m.out };
        let (r, m1) = run_stmts(fns, f, b.stmts@, 0, m0);
        match r {
            Err(x) => (Err(x), m1),
            Ok(Some(v)) => (Ok(Flow::Return(v)), m1),
            Ok(None) => match b.tail {
                None => (
                    Ok(Flow::Normal(Value::Unit)),
                    Machine { scopes: pop_scope(m1.scopes), out: m1.out },
                ),
                Some(t) => {
                    let (r2, m2) = eval_expr(fns, f, *t, m1);
                    match r2 {
                        Err(x) => (Err(x), m2),
                        Ok(Flow::Return(v)) => (Ok(Flow::Return(v)), m2),
                        Ok(Flow::Normal(v)) => (
                            Ok(Flow::Normal(v)),
                            Machine { scopes: pop_scope(m2.scopes), out: m2.out },
                        ),
                    }
                },
            },
        }
    }
}

/// Statements `stmts[i..]` in order; `Ok(Some(v))` means one of them
/// unwound with `return v`.
pub open spec fn run_stmts(
    fns: Seq<FunctionDecl>,
    fuel: nat,
    stmts: Seq<Stmt>,
    i: int,
    m: Machine,
) -> (Result<Option<Value>, Fault>, Machine)
    decreases fuel,
{
    if fuel == 0 {
        (Err(Fault::OutOfFuel), m)
    } else if i < 0 || i >= stmts.len() {
        (Ok(None), m)
    } else {
        let f = (fuel - 1) as nat;
        let (r, m1) = run_stmt(fns, f, stmts[i], m);
        match r {
            Err(x) => (Err(x), m1),
            Ok(Flow::Return(v)) => (Ok(Some(v)), m1),
            Ok(Flow::Normal(_)) => run_stmts(fns, f, stmts, i + 1, m1),
        }
    }
}

pub open spec fn run_stmt(fns: Seq<FunctionDecl>, fuel: nat, s: Stmt, m: Machine) -> (Result<
    Flow,
    Fault,
>, Machine)
    decreases fuel,
{
    if fuel == 0 {
        (Err(Fault::OutOfFuel), m)
    } else {
        let f = (fuel - 1) as nat;
        match s {
            Stmt::Let { name, value, .. } => {
                let (r, m1) = eval_expr(fns, f, value, m);
                match r {
                    Err(x) => (Err(x), m1),
                    Ok(Flow::Return(v)) => (Ok(Flow::Return(v)), m1),
                    Ok(Flow::Normal(v)) => (
                        Ok(Flow::Normal(Value::Unit)),
                        Machine { scopes: declare_var(m1.scopes, name@, v), out: m1.out },
                    ),
                }
            },
            Stmt::Return(None) => (Ok(Flow::Return(Value::Unit)), m),
            Stmt::Return(Some(e)) => {
                let (r, m1) = eval_expr(fns, f, e, m);
                match r {
                    Err(x) => (Err(x), m1),
                    Ok(Flow::Return(v)) => (Ok(Flow::Return(v)), m1),
                    Ok(Flow::Normal(v)) => (Ok(Flow::Return(v)), m1),
                }
            },
            Stmt::While { cond, body } => run_while(fns, f, cond, body, m),
            Stmt::Expr(e) => eval_expr(fns, f, e, m),
        }
    }
}

/// A `while` loop: one unit of fuel per iteration.
pub open spec fn run_while(
    fns: Seq<FunctionDecl>,
    fuel: nat,
    cond: Expr,
    body: Block,
    m: Machine,
) -> (Result<Flow, Fault>, Machine)
    decreases fuel,
{
    if fuel == 0 {
        (Err(Fault::OutOfFuel), m)
    } else {
        let f = (fuel - 1) as nat;
        let (r, m1) = eval_expr(fns, f, cond, m);
        match r {
            Err(x) => (Err(x), m1),
            Ok(Flow::Return(v)) => (Ok(Flow::Return(v)), m1),
            Ok(Flow::Normal(Value::Bool(false))) => (Ok(Flow::Normal(Value::Unit)), m1),
            Ok(Flow::Normal(Value::Bool(true))) => {
                let (r2, m2) = run_block(fns, f, body, m1);
                match r2 {
                    Err(x) => (Err(x), m2),
                    Ok(Flow::Return(v)) => (Ok(Flow::Return(v)), m2),
                    Ok(Flow::Normal(_)) => run_while(fns, f, cond, body, m2),
                }
            },
            Ok(Flow::Normal(_)) => (Err(Fault::Stuck), m1),
        }
    }
}

/// A call of `fd` with argument values `args`, starting from output `out`:
/// its result (whether the body finished through its tail or a `return`)
/// and the output afterwards.
pub open spec fn call_fn(
    fns: Seq<FunctionDecl>,
    fuel: nat,
    fd: FunctionDecl,
    args: Seq<Value>,
    out: Seq<Value>,
) -> (Result<Value, Fault>, Seq<Value>)
    decreases fuel,
{
    if fuel == 0 {
        (Err(Fault::OutOfFuel), out)
    } else {
        let f = (fuel - 1) as nat;
        let scope = bind_params(fd.params@, args, min(fd.params@.len() as int, args.len() as int));
        let (r, m1) = run_block(fns, f, fd.body, Machine { scopes: seq![scope], out });
        match r {
            Err(x) => (Err(x), m1.out),
            Ok(Flow::Normal(v)) => (Ok(v), m1.out),
            Ok(Flow::Return(v)) => (Ok(v), m1.out),
        }
    }
}

/// Running a whole program: `main` called with no arguments.
pub open spec fn run_program(fns: Seq<FunctionDecl>, fuel: nat) -> (Result<Value, Fault>, Seq<
    Value,
>) {
    match lookup_fn(fns, "main"@) {
        None => (Err(Fault::Runtime(RuntimeError::NoMainFunction)), seq![]),
        Some(fd) => call_fn(fns, fuel, fd, seq![], seq![]),
    }
}

/// `&&` and `||` decide on their left operand alone when it settles the
/// result: whatever the right operand is, it is not evaluated, so it
/// neither prints, nor changes a variable, nor fails.
pub proof fn short_circuit_skips_right_operand(
    fns: Seq<FunctionDecl>,
    fuel: nat,
    op: BinOp,
    lhs: Expr,
    rhs: Expr,
    m: Machine,
    b: bool,
)
    requires
        fuel >= 1,
        (op == BinOp::And && !b) || (op == BinOp::Or && b),
        eval_expr(fns, (fuel - 1) as nat, lhs, m).0 == Ok::<Flow, Fault>(Flow::Normal(Value::Bool(b))),
    ensures
        eval_binary(fns, fuel, op, lhs, rhs, m) == (
            Ok::<Flow, Fault>(Flow::Normal(Value::Bool(b))),
            eval_expr(fns, (fuel - 1) as nat, lhs, m).1,
        ),
{
}

} // verus!
