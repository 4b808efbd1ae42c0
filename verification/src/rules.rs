//! The rules of the semantics, each stated on its own: literals, checked
//! arithmetic, division and remainder, `-` and `!`, `&&` and `||`,
//! variable lookup and assignment, `let`, `return`, `if` and `while`,
//! printing, calls, and how a run starts. The interpreter's functions are
//! proved to compute `semantics.rs`, so these hold of them too.
use vstd::prelude::*;

use crate::ast::{BinOp, Block, ElseBranch, Expr, FunctionDecl, Param, Stmt, Type, UnOp};
use crate::interpreter::{RuntimeError, Value};
use crate::semantics::{
    bind_params, binop_result, call_fn, declare_var, div_toward_zero, eval_args, eval_binary,
    eval_expr, lookup_fn, lookup_var, min, run_block, run_program, run_stmt, run_stmts,
    run_while, Fault, Flow, Machine,
};

verus! {

// ---------------------------------------------------------------------
// Literals and arithmetic
// ---------------------------------------------------------------------

/// An integer literal is its own value when it fits in `i32`, and the
/// runtime error `LiteralOutOfRange` otherwise; nothing else changes.
pub proof fn literal_rule(fns: Seq<FunctionDecl>, fuel: nat, n: i64, m: Machine)
    requires
        fuel >= 1,
    ensures
        eval_expr(fns, fuel, Expr::IntLit(n), m) == (
            if i32::MIN <= n <= i32::MAX {
                Ok::<Flow, Fault>(Flow::Normal(Value::I32(n as i32)))
            } else {
                Err::<Flow, Fault>(Fault::Runtime(RuntimeError::LiteralOutOfRange(n)))
            },
            m,
        ),
{
}

/// `+`, `-` and `*` on `i32`s give the exact integer result when it fits
/// in `i32`, and `IntegerOverflow` otherwise: they never wrap.
pub proof fn checked_arithmetic(op: BinOp, a: i32, b: i32)
    requires
        op == BinOp::Add || op == BinOp::Sub || op == BinOp::Mul,
    ensures
        ({
            let r: int = if op == BinOp::Add {
                a + b
            } else if op == BinOp::Sub {
                a - b
            } else {
                a * b
            };
            binop_result(op, Value::I32(a), Value::I32(b)) == if i32::MIN <= r <= i32::MAX {
                Ok::<Value, Fault>(Value::I32(r as i32))
            } else {
                Err::<Value, Fault>(Fault::Runtime(RuntimeError::IntegerOverflow))
            }
        }),
{
}

/// Comparisons of `i32`s always succeed with the comparison's truth value;
/// `==` and `!=` compare any two values, and `==` is symmetric.
pub proof fn comparison_rules(a: i32, b: i32, x: Value, y: Value)
    ensures
        binop_result(BinOp::Lt, Value::I32(a), Value::I32(b)) == Ok::<Value, Fault>(Value::Bool(a < b)),
        binop_result(BinOp::Gt, Value::I32(a), Value::I32(b)) == Ok::<Value, Fault>(Value::Bool(a > b)),
        binop_result(BinOp::LtEq, Value::I32(a), Value::I32(b)) == Ok::<Value, Fault>(Value::Bool(a <= b)),
        binop_result(BinOp::GtEq, Value::I32(a), Value::I32(b)) == Ok::<Value, Fault>(Value::Bool(a >= b)),
        binop_result(BinOp::Eq, x, y) == Ok::<Value, Fault>(Value::Bool(x == y)),
        binop_result(BinOp::NotEq, x, y) == Ok::<Value, Fault>(Value::Bool(x != y)),
        binop_result(BinOp::Eq, x, y) == binop_result(BinOp::Eq, y, x),
{
}

/// `q` is `a / b` rounded toward zero: the remainder `a - q * b` is smaller
/// than `b` in size and is zero or has the sign of `a`.
pub open spec fn rounds_toward_zero(a: int, b: int, q: int) -> bool {
    let r = a - q * b;
    &&& (if r < 0 { -r } else { r }) < (if b < 0 { -b } else { b })
    &&& r == 0 || (r < 0) == (a < 0)
}

proof fn lemma_div_toward_zero(a: int, b: int)
    requires
        b != 0,
    ensures
        rounds_toward_zero(a, b, div_toward_zero(a, b)),
{
    let q = div_toward_zero(a, b);
    if a >= 0 && b > 0 {
        vstd::arithmetic::div_mod::lemma_fundamental_div_mod(a, b);
        vstd::arithmetic::div_mod::lemma_mod_pos_bound(a, b);
        assert(a - q * b == a % b) by (nonlinear_arith)
            requires
                q == a / b,
                a == b * (a / b) + a % b,
        ;
    } else if a >= 0 {
        let nb = -b;
        vstd::arithmetic::div_mod::lemma_fundamental_div_mod(a, nb);
        vstd::arithmetic::div_mod::lemma_mod_pos_bound(a, nb);
        assert(a - q * b == a % nb) by (nonlinear_arith)
            requires
                q == -(a / nb),
                nb == -b,
                a == nb * (a / nb) + a % nb,
        ;
    } else if b > 0 {
        let na = -a;
        vstd::arithmetic::div_mod::lemma_fundamental_div_mod(na, b);
        vstd::arithmetic::div_mod::lemma_mod_pos_bound(na, b);
        assert(a - q * b == -(na % b)) by (nonlinear_arith)
            requires
                q == -(na / b),
                na == -a,
                na == b * (na / b) + na % b,
        ;
    } else {
        let na = -a;
        let nb = -b;
        vstd::arithmetic::div_mod::lemma_fundamental_div_mod(na, nb);
        vstd::arithmetic::div_mod::lemma_mod_pos_bound(na, nb);
        assert(a - q * b == -(na % nb)) by (nonlinear_arith)
            requires
                q == na / nb,
                na == -a,
                nb == -b,
                na == nb * (na / nb) + na % nb,
        ;
    }
}

/// Division of `i32`s: by zero it is `DivisionByZero` (checked first),
/// `i32::MIN / -1` overflows, and otherwise the quotient is rounded toward
/// zero.
pub proof fn division_rule(a: i32, b: i32)
    ensures
        b == 0 ==> binop_result(BinOp::Div, Value::I32(a), Value::I32(b)) == Err::<Value, Fault>(
            Fault::Runtime(RuntimeError::DivisionByZero),
        ),
        b != 0 && a == i32::MIN && b == -1 ==> binop_result(BinOp::Div, Value::I32(a), Value::I32(b))
            == Err::<Value, Fault>(Fault::Runtime(RuntimeError::IntegerOverflow)),
        b != 0 && !(a == i32::MIN && b == -1) ==> (binop_result(
            BinOp::Div,
            Value::I32(a),
            Value::I32(b),
        ) matches Ok(Value::I32(q)) && rounds_toward_zero(a as int, b as int, q as int)),
{
    if b != 0 {
        if a == i32::MIN && b == -1 {
            assert(div_toward_zero(a as int, b as int) == 0x8000_0000);
        } else {
            crate::interpreter::lemma_div_toward_zero_bounds(a as int, b as int);
            lemma_div_toward_zero(a as int, b as int);
        }
    }
}

/// Remainder of `i32`s: by zero it is `ModuloByZero`, `i32::MIN % -1`
/// overflows, and otherwise it is what is left after the quotient rounded
/// toward zero: smaller than `b` in size, zero or with the sign of `a`.
pub proof fn modulo_rule(a: i32, b: i32)
    ensures
        b == 0 ==> binop_result(BinOp::Mod, Value::I32(a), Value::I32(b)) == Err::<Value, Fault>(
            Fault::Runtime(RuntimeError::ModuloByZero),
        ),
        b != 0 && a == i32::MIN && b == -1 ==> binop_result(BinOp::Mod, Value::I32(a), Value::I32(b))
            == Err::<Value, Fault>(Fault::Runtime(RuntimeError::IntegerOverflow)),
        b != 0 && !(a == i32::MIN && b == -1) ==> (binop_result(
            BinOp::Mod,
            Value::I32(a),
            Value::I32(b),
        ) matches Ok(Value::I32(r)) && exists|q: int|
            rounds_toward_zero(a as int, b as int, q) && r == a - q * b),
{
    if b != 0 && !(a == i32::MIN && b == -1) {
        crate::interpreter::lemma_div_toward_zero_bounds(a as int, b as int);
        lemma_div_toward_zero(a as int, b as int);
        let q = div_toward_zero(a as int, b as int);
        assert(rounds_toward_zero(a as int, b as int, q));
    }
}

/// `!e` is the negation of the boolean that `e` evaluates to, with the
/// machine as `e` left it.
pub proof fn not_negates(fns: Seq<FunctionDecl>, fuel: nat, e: Expr, m: Machine, b: bool)
    requires
        fuel >= 1,
        eval_expr(fns, (fuel - 1) as nat, e, m).0 == Ok::<Flow, Fault>(Flow::Normal(Value::Bool(b))),
    ensures
        eval_expr(fns, fuel, Expr::Unary { op: UnOp::Not, expr: Box::new(e) }, m) == (
            Ok::<Flow, Fault>(Flow::Normal(Value::Bool(!b))),
            eval_expr(fns, (fuel - 1) as nat, e, m).1,
        ),
{
}

/// `-e` is the negation of the `i32` that `e` evaluates to, except that
/// `-i32::MIN` overflows; the machine is as `e` left it.
pub proof fn neg_negates(fns: Seq<FunctionDecl>, fuel: nat, e: Expr, m: Machine, n: i32)
    requires
        fuel >= 1,
        eval_expr(fns, (fuel - 1) as nat, e, m).0 == Ok::<Flow, Fault>(Flow::Normal(Value::I32(n))),
    ensures
        eval_expr(fns, fuel, Expr::Unary { op: UnOp::Neg, expr: Box::new(e) }, m) == (
            if n == i32::MIN {
                Err::<Flow, Fault>(Fault::Runtime(RuntimeError::IntegerOverflow))
            } else {
                Ok::<Flow, Fault>(Flow::Normal(Value::I32((-n) as i32)))
            },
            eval_expr(fns, (fuel - 1) as nat, e, m).1,
        ),
{
}

/// When the left operand of `&&` or `||` does not decide the result, the
/// result is the boolean that the right operand evaluates to: `l && r` and
/// `l || r` are the logical conjunction and disjunction of their operands.
pub proof fn logic_operators(
    fns: Seq<FunctionDecl>,
    fuel: nat,
    op: BinOp,
    lhs: Expr,
    rhs: Expr,
    m: Machine,
    l: bool,
    r: bool,
)
    requires
        fuel >= 1,
        op == BinOp::And || op == BinOp::Or,
        eval_expr(fns, (fuel - 1) as nat, lhs, m).0 == Ok::<Flow, Fault>(Flow::Normal(Value::Bool(l))),
        eval_expr(
            fns,
            (fuel - 1) as nat,
            rhs,
            eval_expr(fns, (fuel - 1) as nat, lhs, m).1,
        ).0 == Ok::<Flow, Fault>(Flow::Normal(Value::Bool(r))),
    ensures
        eval_binary(fns, fuel, op, lhs, rhs, m).0 == Ok::<Flow, Fault>(
            Flow::Normal(Value::Bool(if op == BinOp::And { l && r } else { l || r })),
        ),
{
}

// ---------------------------------------------------------------------
// Variables and statements
// ---------------------------------------------------------------------

/// A variable is looked up in the innermost scope that binds it: the
/// result is its value in the last such scope, or nothing when no scope
/// binds it.
pub proof fn lookup_finds_innermost(scopes: Seq<Map<Seq<char>, Value>>, name: Seq<char>)
    ensures
        lookup_var(scopes, name) is None <==> forall|i: int|
            0 <= i < scopes.len() ==> !(#[trigger] scopes[i]).contains_key(name),
        lookup_var(scopes, name) is Some ==> exists|j: int|
            0 <= j < scopes.len() && (#[trigger] scopes[j]).contains_key(name) && lookup_var(
                scopes,
                name,
            ) == Some(scopes[j][name]) && forall|i: int|
                j < i < scopes.len() ==> !(#[trigger] scopes[i]).contains_key(name),
    decreases scopes.len(),
{
    if scopes.len() > 0 {
        let k = scopes.len() - 1;
        let d = scopes.drop_last();
        lookup_finds_innermost(d, name);
        assert(scopes.last() == scopes[k]);
        if !scopes[k].contains_key(name) {
            assert forall|i: int| 0 <= i < d.len() implies d[i] == scopes[i] by {}
            if lookup_var(d, name) is Some {
                let j = choose|j: int|
                    0 <= j < d.len() && (#[trigger] d[j]).contains_key(name) && lookup_var(d, name)
                        == Some(d[j][name]) && forall|i: int|
                        j < i < d.len() ==> !(#[trigger] d[i]).contains_key(name);
                assert(scopes[j] == d[j]);
                assert forall|i: int| j < i < scopes.len() implies !(#[trigger] scopes[i]).contains_key(
                    name,
                ) by {
                    if i < k {
                        assert(scopes[i] == d[i]);
                    }
                }
            } else {
                assert forall|i: int| 0 <= i < scopes.len() implies !(
                #[trigger] scopes[i]).contains_key(name) by {
                    if i < k {
                        assert(scopes[i] == d[i]);
                    }
                }
            }
        }
    }
}

/// `let` evaluates its value, then binds the name in the innermost scope
/// (replacing a binding of the same name there) and leaves the other
/// scopes as they were; a `return` in the value unwinds.
pub proof fn let_rule(
    fns: Seq<FunctionDecl>,
    fuel: nat,
    name: String,
    mutable: bool,
    ty: Option<Type>,
    value: Expr,
    m: Machine,
)
    requires
        fuel >= 1,
        m.scopes.len() >= 1,
    ensures
        ({
            let (r1, m1) = eval_expr(fns, (fuel - 1) as nat, value, m);
            let (r, m2) = run_stmt(fns, fuel, Stmt::Let { name, mutable, ty, value }, m);
            match r1 {
                Ok(Flow::Normal(v)) => {
                    &&& r == Ok::<Flow, Fault>(Flow::Normal(Value::Unit))
                    &&& m2.out == m1.out
                    &&& m2.scopes.len() == m1.scopes.len()
                    &&& m2.scopes.last() == m1.scopes.last().insert(name@, v)
                    &&& m2.scopes.drop_last() == m1.scopes.drop_last()
                },
                _ => r == r1 && m2 == m1,
            }
        }),
{
    let (r1, m1) = eval_expr(fns, (fuel - 1) as nat, value, m);
    if let Ok(Flow::Normal(v)) = r1 {
        crate::scoping::only_let_binds(fns, (fuel - 1) as nat, value, Stmt::Return(None), m);
        assert(m1.scopes.len() == crate::scoping::bindings(m1.scopes).len());
        assert(m.scopes.len() == crate::scoping::bindings(m.scopes).len());
        let d = declare_var(m1.scopes, name@, v);
        assert(d.drop_last() =~= m1.scopes.drop_last());
    }
}

/// `return;` unwinds with `()`; `return e;` with the value of `e`; an
/// expression statement is its expression.
pub proof fn return_and_expression_rules(fns: Seq<FunctionDecl>, fuel: nat, e: Expr, m: Machine)
    requires
        fuel >= 1,
    ensures
        run_stmt(fns, fuel, Stmt::Return(None), m) == (Ok::<Flow, Fault>(Flow::Return(Value::Unit)), m),
        ({
            let (r1, m1) = eval_expr(fns, (fuel - 1) as nat, e, m);
            run_stmt(fns, fuel, Stmt::Return(Some(e)), m) == (
                match r1 {
                    Ok(Flow::Normal(v)) => Ok::<Flow, Fault>(Flow::Return(v)),
                    _ => r1,
                },
                m1,
            )
        }),
        run_stmt(fns, fuel, Stmt::Expr(e), m) == eval_expr(fns, (fuel - 1) as nat, e, m),
{
}

/// `if` runs its first block when the condition is `true`; when it is
/// `false`, it runs the `else` block, or the `else if`, or gives `()` when
/// there is no `else`.
pub proof fn if_rule(
    fns: Seq<FunctionDecl>,
    fuel: nat,
    cond: Expr,
    then_branch: Block,
    else_branch: Option<Box<ElseBranch>>,
    m: Machine,
    c: bool,
)
    requires
        fuel >= 1,
        eval_expr(fns, (fuel - 1) as nat, cond, m).0 == Ok::<Flow, Fault>(Flow::Normal(Value::Bool(c))),
    ensures
        ({
            let f = (fuel - 1) as nat;
            let m1 = eval_expr(fns, f, cond, m).1;
            eval_expr(fns, fuel, Expr::If { cond: Box::new(cond), then_branch, else_branch }, m) == if c {
                run_block(fns, f, then_branch, m1)
            } else {
                match else_branch {
                    None => (Ok::<Flow, Fault>(Flow::Normal(Value::Unit)), m1),
                    Some(br) => match *br {
                        ElseBranch::Block(b) => run_block(fns, f, b, m1),
                        ElseBranch::If(inner) => eval_expr(fns, f, *inner, m1),
                    },
                }
            }
        }),
{
}

/// `while` stops with `()` once its condition is `false`; while it is
/// `true`, it runs the body and then tests the condition again.
pub proof fn while_rule(fns: Seq<FunctionDecl>, fuel: nat, cond: Expr, body: Block, m: Machine, c: bool)
    requires
        fuel >= 1,
        eval_expr(fns, (fuel - 1) as nat, cond, m).0 == Ok::<Flow, Fault>(Flow::Normal(Value::Bool(c))),
    ensures
        ({
            let f = (fuel - 1) as nat;
            let m1 = eval_expr(fns, f, cond, m).1;
            let (r2, m2) = run_block(fns, f, body, m1);
            &&& !c ==> run_while(fns, fuel, cond, body, m) == (Ok::<Flow, Fault>(Flow::Normal(Value::Unit)), m1)
            &&& c && r2 is Ok && r2.unwrap() is Normal ==> run_while(fns, fuel, cond, body, m)
                == run_while(fns, f, cond, body, m2)
            &&& c && !(r2 is Ok && r2.unwrap() is Normal) ==> run_while(fns, fuel, cond, body, m) == (
                r2,
                m2,
            )
        }),
{
}

proof fn lemma_assign_lookup(scopes: Seq<Map<Seq<char>, Value>>, name: Seq<char>, v: Value, other: Seq<char>)
    requires
        lookup_var(scopes, name) is Some,
    ensures
        lookup_var(crate::semantics::assign_var(scopes, name, v), other) == if other == name {
            Some(v)
        } else {
            lookup_var(scopes, other)
        },
        crate::semantics::assign_var(scopes, name, v).len() == scopes.len(),
    decreases scopes.len(),
{
    let a = crate::semantics::assign_var(scopes, name, v);
    if scopes.last().contains_key(name) {
        assert(a.last() == scopes.last().insert(name, v));
        assert(a.drop_last() =~= scopes.drop_last());
    } else {
        lemma_assign_lookup(scopes.drop_last(), name, v, other);
        assert(a.last() == scopes.last());
        assert(a.drop_last() =~= crate::semantics::assign_var(scopes.drop_last(), name, v));
    }
}

/// `x = e`, for a variable `x` in scope, gives `()` and makes `x` read as
/// the value of `e` from then on; every other name reads as before, the
/// number of scopes stays and nothing is printed.
pub proof fn assignment_rule(fns: Seq<FunctionDecl>, fuel: nat, name: String, value: Expr, m: Machine, v: Value)
    requires
        fuel >= 1,
        eval_expr(fns, (fuel - 1) as nat, value, m).0 == Ok::<Flow, Fault>(Flow::Normal(v)),
        lookup_var(eval_expr(fns, (fuel - 1) as nat, value, m).1.scopes, name@) is Some,
    ensures
        ({
            let m1 = eval_expr(fns, (fuel - 1) as nat, value, m).1;
            let (r, m2) = eval_expr(fns, fuel, Expr::Assign { name, value: Box::new(value) }, m);
            &&& r == Ok::<Flow, Fault>(Flow::Normal(Value::Unit))
            &&& m2.out == m1.out
            &&& m2.scopes.len() == m1.scopes.len()
            &&& forall|n: Seq<char>| #[trigger] lookup_var(m2.scopes, n) == if n == name@ {
                Some(v)
            } else {
                lookup_var(m1.scopes, n)
            }
        }),
{
    let m1 = eval_expr(fns, (fuel - 1) as nat, value, m).1;
    let m2 = eval_expr(fns, fuel, Expr::Assign { name, value: Box::new(value) }, m).1;
    assert forall|n: Seq<char>| #[trigger] lookup_var(m2.scopes, n) == if n == name@ {
        Some(v)
    } else {
        lookup_var(m1.scopes, n)
    } by {
        lemma_assign_lookup(m1.scopes, name@, v, n);
    }
    lemma_assign_lookup(m1.scopes, name@, v, name@);
}

/// `print(e)` and `print_bool(e)` append the value of `e` to the output and
/// give `()`; the variables are as `e` left them.
pub proof fn print_rule(fns: Seq<FunctionDecl>, fuel: nat, callee: String, args: Vec<Expr>, m: Machine, v: Value)
    requires
        fuel >= 3,
        callee@ == "print"@ || callee@ == "print_bool"@,
        args@.len() == 1,
        eval_expr(fns, (fuel - 2) as nat, args@[0], m).0 == Ok::<Flow, Fault>(Flow::Normal(v)),
    ensures
        ({
            let m1 = eval_expr(fns, (fuel - 2) as nat, args@[0], m).1;
            eval_expr(fns, fuel, Expr::Call { callee, args }, m) == (
                Ok::<Flow, Fault>(Flow::Normal(Value::Unit)),
                Machine { scopes: m1.scopes, out: m1.out.push(v) },
            )
        }),
{
    let m1 = eval_expr(fns, (fuel - 2) as nat, args@[0], m).1;
    assert(eval_args(fns, (fuel - 2) as nat, args@, 1, seq![v], m1) == (
        Ok::<Option<Value>, Fault>(None),
        seq![v],
        m1,
    ));
    assert(eval_args(fns, (fuel - 1) as nat, args@, 0, seq![], m) == (
        Ok::<Option<Value>, Fault>(None),
        seq![v],
        m1,
    ));
    assert(crate::builtins::builtin_params(callee@) is Some);
}

// ---------------------------------------------------------------------
// Calls and runs
// ---------------------------------------------------------------------

/// A call runs the body in a fresh scope of its own holding the
/// parameters, sees nothing of the caller's variables, and gives the body's
/// value whether it ended through its tail or a `return`; an error is
/// passed on. Only the output carries over.
pub proof fn call_rule(fns: Seq<FunctionDecl>, fuel: nat, fd: FunctionDecl, args: Seq<Value>, out: Seq<Value>)
    requires
        fuel >= 1,
    ensures
        ({
            let scope = bind_params(fd.params@, args, min(fd.params@.len() as int, args.len() as int));
            let (r, m1) = run_block(fns, (fuel - 1) as nat, fd.body, Machine { scopes: seq![scope], out });
            call_fn(fns, fuel, fd, args, out) == (
                match r {
                    Ok(Flow::Normal(v)) => Ok::<Value, Fault>(v),
                    Ok(Flow::Return(v)) => Ok::<Value, Fault>(v),
                    Err(x) => Err::<Value, Fault>(x),
                },
                m1.out,
            )
        }),
{
}

/// With as many arguments as parameters, and parameter names all
/// different, the fresh scope binds exactly the parameters' names, each to
/// its argument.
pub proof fn parameters_bind_arguments(params: Seq<Param>, args: Seq<Value>)
    requires
        args.len() == params.len(),
        forall|i: int, j: int| 0 <= i < j < params.len() ==> params[i].name@ != params[j].name@,
    ensures
        ({
            let scope = bind_params(params, args, params.len() as int);
            &&& forall|n: Seq<char>| #[trigger] scope.contains_key(n) <==> exists|i: int|
                0 <= i < params.len() && params[i].name@ == n
            &&& forall|i: int| 0 <= i < params.len() ==> scope[(#[trigger] params[i]).name@] == args[i]
        }),
{
    lemma_bind_prefix(params, args, params.len() as int);
}

proof fn lemma_bind_prefix(params: Seq<Param>, args: Seq<Value>, k: int)
    requires
        0 <= k <= params.len(),
        k <= args.len(),
        forall|i: int, j: int| 0 <= i < j < params.len() ==> params[i].name@ != params[j].name@,
    ensures
        ({
            let scope = bind_params(params, args, k);
            &&& forall|n: Seq<char>| #[trigger] scope.contains_key(n) <==> exists|i: int|
                0 <= i < k && params[i].name@ == n
            &&& forall|i: int| 0 <= i < k ==> scope[(#[trigger] params[i]).name@] == args[i]
        }),
    decreases k,
{
    if k > 0 {
        lemma_bind_prefix(params, args, k - 1);
        let scope = bind_params(params, args, k);
        assert forall|n: Seq<char>| #[trigger] scope.contains_key(n) implies exists|i: int|
            0 <= i < k && params[i].name@ == n by {
            if n != params[k - 1].name@ {
                assert(bind_params(params, args, k - 1).contains_key(n));
                let i = choose|i: int| 0 <= i < k - 1 && params[i].name@ == n;
                assert(0 <= i < k && params[i].name@ == n);
            } else {
                assert(0 <= k - 1 < k && params[k - 1].name@ == n);
            }
        }
        assert forall|i: int| 0 <= i < k implies scope[(#[trigger] params[i]).name@] == args[i] by {
            if i < k - 1 {
                assert(params[i].name@ != params[k - 1].name@);
            }
        }
    }
}

/// `lookup_fn` reaches the last declaration of a name.
pub proof fn lookup_fn_finds_last(fns: Seq<FunctionDecl>, name: Seq<char>)
    ensures
        lookup_fn(fns, name) is None <==> forall|i: int|
            0 <= i < fns.len() ==> (#[trigger] fns[i]).name@ != name,
        lookup_fn(fns, name) is Some ==> exists|j: int|
            0 <= j < fns.len() && lookup_fn(fns, name) == Some(#[trigger] fns[j]) && fns[j].name@ == name
                && forall|i: int| j < i < fns.len() ==> (#[trigger] fns[i]).name@ != name,
    decreases fns.len(),
{
    if fns.len() > 0 {
        let k = fns.len() - 1;
        let d = fns.drop_last();
        lookup_fn_finds_last(d, name);
        assert(fns.last() == fns[k]);
        if fns[k].name@ != name {
            assert forall|i: int| 0 <= i < d.len() implies d[i] == fns[i] by {}
            if lookup_fn(d, name) is Some {
                let j = choose|j: int|
                    0 <= j < d.len() && lookup_fn(d, name) == Some(#[trigger] d[j]) && d[j].name@ == name
                        && forall|i: int| j < i < d.len() ==> (#[trigger] d[i]).name@ != name;
                assert(fns[j] == d[j]);
                assert forall|i: int| j < i < fns.len() implies (#[trigger] fns[i]).name@ != name by {
                    if i < k {
                        assert(fns[i] == d[i]);
                    }
                }
            } else {
                assert forall|i: int| 0 <= i < fns.len() implies (#[trigger] fns[i]).name@ != name by {
                    if i < k {
                        assert(fns[i] == d[i]);
                    }
                }
            }
        }
    }
}

/// A run calls the last function named `main` with no arguments and no
/// output yet; `NoMainFunction` comes exactly when there is none (nothing
/// inside a call ever gives that error).
pub proof fn run_calls_last_main(fns: Seq<FunctionDecl>, fuel: nat)
    ensures
        run_program(fns, fuel).0 == Err::<Value, Fault>(Fault::Runtime(RuntimeError::NoMainFunction))
            <==> forall|i: int| 0 <= i < fns.len() ==> (#[trigger] fns[i]).name@ != "main"@,
        lookup_fn(fns, "main"@) matches Some(fd) ==> run_program(fns, fuel) == call_fn(
            fns,
            fuel,
            fd,
            seq![],
            seq![],
        ) && exists|j: int|
            0 <= j < fns.len() && fns[j] == fd && forall|i: int|
                j < i < fns.len() ==> (#[trigger] fns[i]).name@ != "main"@,
{
    lookup_fn_finds_last(fns, "main"@);
    if let Some(fd) = lookup_fn(fns, "main"@) {
        lemma_no_main_error_call(fns, fuel, fd, seq![], seq![]);
    }
}

// ---------------------------------------------------------------------
// `NoMainFunction` comes from `run_program` alone
// ---------------------------------------------------------------------

pub open spec fn not_no_main<T>(r: Result<T, Fault>) -> bool {
    r != Err::<T, Fault>(Fault::Runtime(RuntimeError::NoMainFunction))
}

proof fn lemma_no_main_error_expr(fns: Seq<FunctionDecl>, fuel: nat, e: Expr, m: Machine)
    ensures
        not_no_main(eval_expr(fns, fuel, e, m).0),
    decreases fuel,
{
    if fuel > 0 {
        let f = (fuel - 1) as nat;
        match e {
            Expr::Unary { expr, .. } => {
                lemma_no_main_error_expr(fns, f, *expr, m);
            },
            Expr::Binary { op, lhs, rhs } => {
                lemma_no_main_error_binary(fns, f, op, *lhs, *rhs, m);
            },
            Expr::Assign { value, .. } => {
                lemma_no_main_error_expr(fns, f, *value, m);
            },
            Expr::Call { callee, args } => {
                lemma_no_main_error_args(fns, f, args@, 0, seq![], m);
                let (r, vals, m1) = eval_args(fns, f, args@, 0, seq![], m);
                if let Some(fd) = lookup_fn(fns, callee@) {
                    lemma_no_main_error_call(fns, f, fd, vals, m1.out);
                }
            },
            Expr::If { cond, then_branch, else_branch } => {
                lemma_no_main_error_expr(fns, f, *cond, m);
                let (r, m1) = eval_expr(fns, f, *cond, m);
                lemma_no_main_error_block(fns, f, then_branch, m1);
                if let Some(br) = else_branch {
                    match *br {
                        ElseBranch::Block(b) => {
                            lemma_no_main_error_block(fns, f, b, m1);
                        },
                        ElseBranch::If(inner) => {
                            lemma_no_main_error_expr(fns, f, *inner, m1);
                        },
                    }
                }
            },
            Expr::Block(b) => {
                lemma_no_main_error_block(fns, f, b, m);
            },
            _ => {},
        }
    }
}

proof fn lemma_no_main_error_binary(
    fns: Seq<FunctionDecl>,
    fuel: nat,
    op: BinOp,
    lhs: Expr,
    rhs: Expr,
    m: Machine,
)
    ensures
        not_no_main(eval_binary(fns, fuel, op, lhs, rhs, m).0),
    decreases fuel,
{
    if fuel > 0 {
        let f = (fuel - 1) as nat;
        lemma_no_main_error_expr(fns, f, lhs, m);
        let (r1, m1) = eval_expr(fns, f, lhs, m);
        lemma_no_main_error_expr(fns, f, rhs, m1);
    }
}

proof fn lemma_no_main_error_args(
    fns: Seq<FunctionDecl>,
    fuel: nat,
    args: Seq<Expr>,
    i: int,
    acc: Seq<Value>,
    m: Machine,
)
    ensures
        not_no_main(eval_args(fns, fuel, args, i, acc, m).0),
    decreases fuel,
{
    if fuel > 0 && 0 <= i < args.len() {
        let f = (fuel - 1) as nat;
        lemma_no_main_error_expr(fns, f, args[i], m);
        let (r, m1) = eval_expr(fns, f, args[i], m);
        if let Ok(Flow::Normal(v)) = r {
            lemma_no_main_error_args(fns, f, args, i + 1, acc.push(v), m1);
        }
    }
}

proof fn lemma_no_main_error_block(fns: Seq<FunctionDecl>, fuel: nat, b: Block, m: Machine)
    ensures
        not_no_main(run_block(fns, fuel, b, m).0),
    decreases fuel,
{
    if fuel > 0 {
        let f = (fuel - 1) as nat;
        let m0 = Machine { scopes: m.scopes.push(Map::empty()), out: m.out };
        lemma_no_main_error_stmts(fns, f, b.stmts@, 0, m0);
        let (r, m1) = run_stmts(fns, f, b.stmts@, 0, m0);
        if let Some(t) = b.tail {
            lemma_no_main_error_expr(fns, f, *t, m1);
        }
    }
}

proof fn lemma_no_main_error_stmts(fns: Seq<FunctionDecl>, fuel: nat, stmts: Seq<Stmt>, i: int, m: Machine)
    ensures
        not_no_main(run_stmts(fns, fuel, stmts, i, m).0),
    decreases fuel,
{
    if fuel > 0 && 0 <= i < stmts.len() {
        let f = (fuel - 1) as nat;
        lemma_no_main_error_stmt(fns, f, stmts[i], m);
        let (r, m1) = run_stmt(fns, f, stmts[i], m);
        lemma_no_main_error_stmts(fns, f, stmts, i + 1, m1);
    }
}

proof fn lemma_no_main_error_stmt(fns: Seq<FunctionDecl>, fuel: nat, s: Stmt, m: Machine)
    ensures
        not_no_main(run_stmt(fns, fuel, s, m).0),
    decreases fuel,
{
    if fuel > 0 {
        let f = (fuel - 1) as nat;
        match s {
            Stmt::Let { value, .. } => {
                lemma_no_main_error_expr(fns, f, value, m);
            },
            Stmt::Return(Some(e)) => {
                lemma_no_main_error_expr(fns, f, e, m);
            },
            Stmt::Return(None) => {},
            Stmt::While { cond, body } => {
                lemma_no_main_error_while(fns, f, cond, body, m);
            },
            Stmt::Expr(e) => {
                lemma_no_main_error_expr(fns, f, e, m);
            },
        }
    }
}

proof fn lemma_no_main_error_while(fns: Seq<FunctionDecl>, fuel: nat, cond: Expr, body: Block, m: Machine)
    ensures
        not_no_main(run_while(fns, fuel, cond, body, m).0),
    decreases fuel,
{
    if fuel > 0 {
        let f = (fuel - 1) as nat;
        lemma_no_main_error_expr(fns, f, cond, m);
        let (r, m1) = eval_expr(fns, f, cond, m);
        lemma_no_main_error_block(fns, f, body, m1);
        let (r2, m2) = run_block(fns, f, body, m1);
        lemma_no_main_error_while(fns, f, cond, body, m2);
    }
}

proof fn lemma_no_main_error_call(fns: Seq<FunctionDecl>, fuel: nat, fd: FunctionDecl, args: Seq<Value>, out: Seq<Value>)
    ensures
        not_no_main(call_fn(fns, fuel, fd, args, out).0),
    decreases fuel,
{
    if fuel > 0 {
        let f = (fuel - 1) as nat;
        let scope = bind_params(fd.params@, args, min(fd.params@.len() as int, args.len() as int));
        lemma_no_main_error_block(fns, f, fd.body, Machine { scopes: seq![scope], out });
    }
}

} // verus!
