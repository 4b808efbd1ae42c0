//! Type soundness: a program that the type checker accepts never reaches
//! a state the interpreter treats as a broken invariant (an undefined
//! variable or function, an operand of the wrong type, a builtin called
//! without its argument).
//!
//! The proof runs the semantics of `semantics.rs` alongside the typing
//! rules of `typechecker.rs`: at every point the values in scope have the
//! types the checker recorded for them, and every value an expression
//! yields has the type the checker gave it.
use vstd::prelude::*;

use crate::ast::{
    block_view, else_view, expr_view, function_view, param_view, program_view, stmt_view, BinOp, Block,
    ElseBranch, ElseView, Expr, FunctionDecl, FunctionView, Param, ParamView, Program, Stmt, StmtView, Type, UnOp,
};
use crate::builtins::builtin_params;
use crate::interpreter::{program_decls, Value};
use crate::semantics::{
    assign_var, bind_params, binop_result, call_fn, declare_var, eval_args, eval_binary,
    eval_expr, lookup_fn, lookup_var, pop_scope, run_block, run_program, run_stmt, run_stmts,
    run_while, unary_result, checked_i32, Fault, Flow, Machine,
};
use crate::typechecker::{
    args_check, args_view, binary_type, block_type, builtin_sigs, check_from, declare_info,
    else_type, expr_type, function_check, lookup_info, params_scope, program_check,
    lemma_check_from, lemma_register, register_from, signature, stmt_check, stmts_check, unary_type, SigView, TypeScopes, VarInfo,
};

verus! {

/// The type of a runtime value.
pub open spec fn value_type(v: Value) -> Type {
    match v {
        Value::I32(_) => Type::I32,
        Value::Bool(_) => Type::Bool,
        Value::Unit => Type::Unit,
    }
}

/// A runtime scope binds the names its typing scope does, each to a value
/// of the recorded type.
pub open spec fn scope_match(vs: Map<Seq<char>, Value>, ts: Map<Seq<char>, VarInfo>) -> bool {
    &&& vs.dom() =~= ts.dom()
    &&& forall|n: Seq<char>| #[trigger] vs.contains_key(n) ==> value_type(vs[n]) == ts[n].ty
}

pub open spec fn scopes_match(vs: Seq<Map<Seq<char>, Value>>, ts: TypeScopes) -> bool {
    &&& vs.len() == ts.len()
    &&& forall|i: int| 0 <= i < vs.len() ==> scope_match(#[trigger] vs[i], ts[i])
}

proof fn lemma_lookup_match(vs: Seq<Map<Seq<char>, Value>>, ts: TypeScopes, n: Seq<char>)
    requires
        scopes_match(vs, ts),
    ensures
        lookup_var(vs, n) is Some <==> lookup_info(ts, n) is Some,
        lookup_var(vs, n) is Some ==> value_type(lookup_var(vs, n)->Some_0) == lookup_info(
            ts,
            n,
        )->Some_0.ty,
    decreases vs.len(),
{
    if vs.len() > 0 {
        let k = vs.len() - 1;
        assert(scope_match(vs[k], ts[k]));
        assert(vs.last() == vs[k]);
        assert(vs.last().contains_key(n) == ts.last().contains_key(n));
        if !vs.last().contains_key(n) {
            assert(scopes_match(vs.drop_last(), ts.drop_last())) by {
                assert forall|i: int| 0 <= i < vs.drop_last().len() implies scope_match(
                    #[trigger] vs.drop_last()[i],
                    ts.drop_last()[i],
                ) by {
                    assert(scope_match(vs[i], ts[i]));
                }
            }
            lemma_lookup_match(vs.drop_last(), ts.drop_last(), n);
        }
    }
}

proof fn lemma_assign_match(
    vs: Seq<Map<Seq<char>, Value>>,
    ts: TypeScopes,
    n: Seq<char>,
    v: Value,
)
    requires
        scopes_match(vs, ts),
        lookup_info(ts, n) is Some,
        value_type(v) == lookup_info(ts, n)->Some_0.ty,
    ensures
        scopes_match(assign_var(vs, n, v), ts),
    decreases vs.len(),
{
    if vs.len() > 0 {
        let k = vs.len() - 1;
        assert(scope_match(vs[k], ts[k]));
        assert(vs.last() == vs[k]);
        if vs.last().contains_key(n) {
            let a = assign_var(vs, n, v);
            assert forall|i: int| 0 <= i < a.len() implies scope_match(#[trigger] a[i], ts[i]) by {
                assert(scope_match(vs[i], ts[i]));
                if i == k {
                    assert(a[i] == vs[k].insert(n, v));
                    assert(a[i].dom() =~= ts[i].dom());
                }
            }
        } else {
            let dv = vs.drop_last();
            let dt = ts.drop_last();
            assert(scopes_match(dv, dt)) by {
                assert forall|i: int| 0 <= i < dv.len() implies scope_match(#[trigger] dv[i], dt[i]) by {
                    assert(scope_match(vs[i], ts[i]));
                }
            }
            lemma_assign_match(dv, dt, n, v);
            crate::semantics::lemma_assign_var_len(dv, n, v);
            let a = assign_var(vs, n, v);
            assert forall|i: int| 0 <= i < a.len() implies scope_match(#[trigger] a[i], ts[i]) by {
                if i < k {
                    assert(a[i] == assign_var(dv, n, v)[i]);
                    assert(scope_match(assign_var(dv, n, v)[i], dt[i]));
                } else {
                    assert(scope_match(vs[k], ts[k]));
                }
            }
        }
    }
}

proof fn lemma_declare_match(
    vs: Seq<Map<Seq<char>, Value>>,
    ts: TypeScopes,
    n: Seq<char>,
    v: Value,
    info: VarInfo,
)
    requires
        scopes_match(vs, ts),
        ts.len() >= 1,
        value_type(v) == info.ty,
    ensures
        scopes_match(declare_var(vs, n, v), declare_info(ts, n, info)),
{
    let k = vs.len() - 1;
    let a = declare_var(vs, n, v);
    let b = declare_info(ts, n, info);
    assert forall|i: int| 0 <= i < a.len() implies scope_match(#[trigger] a[i], b[i]) by {
        assert(scope_match(vs[i], ts[i]));
        if i == k {
            assert(a[i].dom() =~= b[i].dom());
        }
    }
}

proof fn lemma_push_match(vs: Seq<Map<Seq<char>, Value>>, ts: TypeScopes)
    requires
        scopes_match(vs, ts),
    ensures
        scopes_match(vs.push(Map::empty()), ts.push(Map::empty())),
{
    let a = vs.push(Map::empty());
    let b = ts.push(Map::empty());
    assert forall|i: int| 0 <= i < a.len() implies scope_match(#[trigger] a[i], b[i]) by {
        if i < vs.len() {
            assert(scope_match(vs[i], ts[i]));
        } else {
            assert(a[i].dom() =~= b[i].dom());
        }
    }
}

proof fn lemma_pop_match(vs: Seq<Map<Seq<char>, Value>>, ts: TypeScopes)
    requires
        scopes_match(vs, ts),
        ts.len() >= 1,
    ensures
        scopes_match(pop_scope(vs), ts.drop_last()),
{
    let a = pop_scope(vs);
    assert forall|i: int| 0 <= i < a.len() implies scope_match(#[trigger] a[i], ts.drop_last()[i]) by {
        assert(scope_match(vs[i], ts[i]));
    }
}

/// Checking statements keeps the number of scopes and all but the
/// innermost one.
proof fn lemma_stmts_frame(
    sigs: Map<Seq<char>, SigView>,
    scopes: TypeScopes,
    ret: Type,
    ss: Seq<StmtView>,
)
    requires
        scopes.len() >= 1,
        stmts_check(sigs, scopes, ret, ss) is Ok,
    ensures
        ({
            let next = stmts_check(sigs, scopes, ret, ss)->Ok_0;
            next.len() == scopes.len() && next.drop_last() == scopes.drop_last()
        }),
    decreases ss.len(),
{
    if ss.len() > 0 {
        let next = stmt_check(sigs, scopes, ret, ss[0])->Ok_0;
        lemma_stmt_frame(sigs, scopes, ret, ss[0]);
        lemma_stmts_frame(sigs, next, ret, ss.subrange(1, ss.len() as int));
    }
}

proof fn lemma_stmt_frame(sigs: Map<Seq<char>, SigView>, scopes: TypeScopes, ret: Type, s: StmtView)
    requires
        scopes.len() >= 1,
        stmt_check(sigs, scopes, ret, s) is Ok,
    ensures
        ({
            let next = stmt_check(sigs, scopes, ret, s)->Ok_0;
            next.len() == scopes.len() && next.drop_last() == scopes.drop_last()
        }),
{
    let next = stmt_check(sigs, scopes, ret, s)->Ok_0;
    if s is Let {
        assert(next.drop_last() =~= scopes.drop_last());
    }
}

// ---------------------------------------------------------------------
// The function table
// ---------------------------------------------------------------------

/// Every name in the table that is not a builtin is reached by a call
/// through `lookup_fn`, to a declaration with the recorded signature whose
/// body checks; every builtin has its own signature.
pub open spec fn fns_ok(fns: Seq<FunctionDecl>, sigs: Map<Seq<char>, SigView>) -> bool {
    &&& forall|name: Seq<char>| #[trigger]
        builtin_params(name) is Some ==> sigs.contains_key(name) && sigs[name] == builtin_sigs()[name]
    &&& forall|name: Seq<char>| #[trigger]
        sigs.contains_key(name) && builtin_params(name) is None ==> {
            &&& lookup_fn(fns, name) is Some
            &&& signature(function_view(lookup_fn(fns, name)->Some_0)) == sigs[name]
            &&& function_check(sigs, function_view(lookup_fn(fns, name)->Some_0)) is Ok
        }
}

/// `lookup_fn` finds a declaration exactly when one has the name, and what
/// it finds is one of them.
proof fn lemma_lookup_fn(fns: Seq<FunctionDecl>, name: Seq<char>)
    ensures
        lookup_fn(fns, name) is Some <==> exists|j: int| 0 <= j < fns.len() && (#[trigger] fns[j]).name@ == name,
        lookup_fn(fns, name) is Some ==> exists|j: int|
            0 <= j < fns.len() && (#[trigger] fns[j]) == lookup_fn(fns, name)->Some_0 && fns[j].name@ == name,
    decreases fns.len(),
{
    if fns.len() > 0 {
        lemma_lookup_fn(fns.drop_last(), name);
        let k = fns.len() - 1;
        assert(fns.last() == fns[k]);
        if fns.last().name@ != name {
            if exists|j: int| 0 <= j < fns.len() && (#[trigger] fns[j]).name@ == name {
                let j = choose|j: int| 0 <= j < fns.len() && (#[trigger] fns[j]).name@ == name;
                assert(j < k);
                assert(fns.drop_last()[j] == fns[j]);
            }
            if lookup_fn(fns, name) is Some {
                let j = choose|j: int|
                    0 <= j < fns.drop_last().len() && (#[trigger] fns.drop_last()[j]) == lookup_fn(
                        fns.drop_last(),
                        name,
                    )->Some_0 && fns.drop_last()[j].name@ == name;
                assert(fns[j] == fns.drop_last()[j]);
            }
        }
    }
}

/// A program that checks has a function table that `fns_ok` describes.
proof fn lemma_program_fns_ok(p: Program) -> (all: Map<Seq<char>, SigView>)
    requires
        program_check(program_view(p)) is Ok,
    ensures
        fns_ok(program_decls(p), all),
        forall|j: int|
            0 <= j < program_decls(p).len() ==> function_check(
                all,
                function_view(#[trigger] program_decls(p)[j]),
            ) is Ok,
{
    let fs = program_view(p);
    let fns = program_decls(p);
    let all = register_from(builtin_sigs(), fs, 0)->Ok_0;
    lemma_register(builtin_sigs(), fs, 0);
    lemma_check_from(all, fs, 0);
    assert forall|j: int| 0 <= j < fns.len() implies fs[j] == function_view(#[trigger] fns[j]) by {}
    assert forall|name: Seq<char>| #[trigger] builtin_params(name) is Some implies all.contains_key(name)
        && all[name] == builtin_sigs()[name] by {
        assert(builtin_sigs().contains_key(name));
    }
    assert forall|name: Seq<char>| #[trigger]
        all.contains_key(name) && builtin_params(name) is None implies {
        &&& lookup_fn(fns, name) is Some
        &&& signature(function_view(lookup_fn(fns, name)->Some_0)) == all[name]
        &&& function_check(all, function_view(lookup_fn(fns, name)->Some_0)) is Ok
    } by {
        assert(!builtin_sigs().contains_key(name));
        let j0 = choose|j: int| 0 <= j < fs.len() && (#[trigger] fs[j]).name == name;
        assert(fns[j0].name@ == name);
        lemma_lookup_fn(fns, name);
        let j = choose|j: int|
            0 <= j < fns.len() && (#[trigger] fns[j]) == lookup_fn(fns, name)->Some_0 && fns[j].name@ == name;
        assert(fs[j] == function_view(fns[j]));
        assert(fs[j].name == name);
    }
    all
}

// ---------------------------------------------------------------------
// Values
// ---------------------------------------------------------------------

proof fn lemma_unary(op: UnOp, v: Value)
    requires
        unary_type(op, value_type(v)) is Ok,
    ensures
        unary_result(op, v) != Err::<Value, Fault>(Fault::Stuck),
        unary_result(op, v) matches Ok(w) ==> value_type(w) == unary_type(op, value_type(v))->Ok_0,
{
}

proof fn lemma_binop(op: BinOp, l: Value, r: Value)
    requires
        binary_type(op, value_type(l), value_type(r)) is Ok,
        op != BinOp::And,
        op != BinOp::Or,
    ensures
        binop_result(op, l, r) != Err::<Value, Fault>(Fault::Stuck),
        binop_result(op, l, r) matches Ok(w) ==> value_type(w) == binary_type(
            op,
            value_type(l),
            value_type(r),
        )->Ok_0,
{
}

/// A parameter scope built from typed arguments matches the parameters'
/// typing scope.
proof fn lemma_bind(params: Seq<Param>, vals: Seq<Value>, k: int)
    requires
        0 <= k <= params.len(),
        k <= vals.len(),
        forall|j: int| 0 <= j < k ==> value_type(#[trigger] vals[j]) == params[j].ty,
    ensures
        scope_match(
            bind_params(params, vals, k),
            params_scope(params.map_values(|p: Param| param_view(p)).take(k)),
        ),
    decreases k,
{
    let pv = params.map_values(|p: Param| param_view(p));
    if k == 0 {
        assert(pv.take(0) =~= Seq::<ParamView>::empty());
        assert(bind_params(params, vals, 0).dom() =~= params_scope(pv.take(0)).dom());
    } else {
        lemma_bind(params, vals, k - 1);
        assert(pv.take(k).drop_last() =~= pv.take(k - 1));
        assert(pv.take(k).last() == param_view(params[k - 1]));
        let a = bind_params(params, vals, k);
        let b = params_scope(pv.take(k));
        assert(a.dom() =~= b.dom());
        assert(value_type(vals[k - 1]) == params[k - 1].ty);
    }
}

// ---------------------------------------------------------------------
// The semantics keeps to the types
// ---------------------------------------------------------------------

/// An evaluation that did not get stuck: a normal value of type `t` with
/// the scopes still matching `ts`, or a `return` of a value of type `ret`.
pub open spec fn flow_ok(r: Result<Flow, Fault>, m1: Machine, ts: TypeScopes, ret: Type, t: Type) -> bool {
    &&& r != Err::<Flow, Fault>(Fault::Stuck)
    &&& (r matches Ok(Flow::Normal(v)) ==> value_type(v) == t && scopes_match(m1.scopes, ts))
    &&& (r matches Ok(Flow::Return(v)) ==> value_type(v) == ret)
}

proof fn lemma_expr(
    fns: Seq<FunctionDecl>,
    sigs: Map<Seq<char>, SigView>,
    fuel: nat,
    e: Expr,
    m: Machine,
    ts: TypeScopes,
    ret: Type,
)
    requires
        fns_ok(fns, sigs),
        scopes_match(m.scopes, ts),
        expr_type(sigs, ts, ret, expr_view(e)) is Ok,
    ensures
        flow_ok(
            eval_expr(fns, fuel, e, m).0,
            eval_expr(fns, fuel, e, m).1,
            ts,
            ret,
            expr_type(sigs, ts, ret, expr_view(e))->Ok_0,
        ),
    decreases fuel,
{
    if fuel > 0 {
        let f = (fuel - 1) as nat;
        match e {
            Expr::IntLit(_) => {},
            Expr::BoolLit(_) => {},
            Expr::Ident(name) => {
                lemma_lookup_match(m.scopes, ts, name@);
            },
            Expr::Unary { op, expr } => {
                lemma_expr(fns, sigs, f, *expr, m, ts, ret);
                let (r, m1) = eval_expr(fns, f, *expr, m);
                if let Ok(Flow::Normal(v)) = r {
                    lemma_unary(op, v);
                }
            },
            Expr::Binary { op, lhs, rhs } => {
                lemma_binary(fns, sigs, f, op, *lhs, *rhs, m, ts, ret);
            },
            Expr::Assign { name, value } => {
                lemma_expr(fns, sigs, f, *value, m, ts, ret);
                let (r, m1) = eval_expr(fns, f, *value, m);
                if let Ok(Flow::Normal(v)) = r {
                    lemma_lookup_match(m1.scopes, ts, name@);
                    lemma_assign_match(m1.scopes, ts, name@, v);
                }
            },
            Expr::Call { callee, args } => {
                lemma_call_expr(fns, sigs, f, callee, args, m, ts, ret);
                assert(expr_view(e)->Call_args =~= args_view(args@));
            },
            Expr::If { cond, then_branch, else_branch } => {
                lemma_expr(fns, sigs, f, *cond, m, ts, ret);
                let (r, m1) = eval_expr(fns, f, *cond, m);
                match r {
                    Ok(Flow::Normal(Value::Bool(true))) => {
                        lemma_block(fns, sigs, f, then_branch, m1, ts, ret);
                    },
                    Ok(Flow::Normal(Value::Bool(false))) => {
                        match else_branch {
                            None => {},
                            Some(br) => {
                                assert(else_type(sigs, ts, ret, else_view(*br)) is Ok);
                                match *br {
                                    ElseBranch::Block(b) => {
                                        assert(else_view(*br) == ElseView::Block(block_view(b)));
                                        lemma_block(fns, sigs, f, b, m1, ts, ret);
                                    },
                                    ElseBranch::If(inner) => {
                                        assert(else_view(*br) == ElseView::If(Box::new(expr_view(*inner))));
                                        lemma_expr(fns, sigs, f, *inner, m1, ts, ret);
                                    },
                                }
                            },
                        }
                    },
                    _ => {},
                }
            },
            Expr::Block(b) => {
                lemma_block(fns, sigs, f, b, m, ts, ret);
            },
        }
    }
}

/// The `Call` case of `lemma_expr`, with `fuel` already spent on the call
/// expression itself.
proof fn lemma_call_expr(
    fns: Seq<FunctionDecl>,
    sigs: Map<Seq<char>, SigView>,
    f: nat,
    callee: String,
    args: Vec<Expr>,
    m: Machine,
    ts: TypeScopes,
    ret: Type,
)
    requires
        fns_ok(fns, sigs),
        scopes_match(m.scopes, ts),
        expr_type(sigs, ts, ret, expr_view(Expr::Call { callee, args })) is Ok,
    ensures
        flow_ok(
            eval_expr(fns, f + 1, Expr::Call { callee, args }, m).0,
            eval_expr(fns, f + 1, Expr::Call { callee, args }, m).1,
            ts,
            ret,
            expr_type(sigs, ts, ret, expr_view(Expr::Call { callee, args }))->Ok_0,
        ),
    decreases f + 1, 0nat,
{
    let e = Expr::Call { callee, args };
    assert(expr_view(e)->Call_args =~= args_view(args@));
    let sig = sigs[callee@];
    let n = args@.len();
    assert(args_view(args@).subrange(0, n as int) =~= args_view(args@));
    assert(sig.params.subrange(0, n as int) =~= sig.params);
    lemma_args(fns, sigs, f, args@, 0, seq![], m, ts, ret, callee@, sig.params);
    let (r, vals, m1) = eval_args(fns, f, args@, 0, seq![], m);
    if r == Ok::<Option<Value>, Fault>(None) {
        if builtin_params(callee@) is Some {
            assert(sig == builtin_sigs()[callee@]);
            assert(vals.len() >= 1);
        } else {
            let fd = lookup_fn(fns, callee@)->Some_0;
            let fv = function_view(fd);
            assert(signature(fv) == sig);
            assert forall|k: int| 0 <= k < vals.len() implies value_type(#[trigger] vals[k])
                == fd.params@[k].ty by {
                assert(sig.params[k] == fv.params[k].ty);
                assert(fv.params[k] == param_view(fd.params@[k]));
            }
            lemma_call(fns, sigs, f, fd, vals, m1.out);
        }
    }
}

proof fn lemma_binary(
    fns: Seq<FunctionDecl>,
    sigs: Map<Seq<char>, SigView>,
    fuel: nat,
    op: BinOp,
    lhs: Expr,
    rhs: Expr,
    m: Machine,
    ts: TypeScopes,
    ret: Type,
)
    requires
        fns_ok(fns, sigs),
        scopes_match(m.scopes, ts),
        expr_type(sigs, ts, ret, expr_view(lhs)) is Ok,
        expr_type(sigs, ts, ret, expr_view(rhs)) is Ok,
        binary_type(
            op,
            expr_type(sigs, ts, ret, expr_view(lhs))->Ok_0,
            expr_type(sigs, ts, ret, expr_view(rhs))->Ok_0,
        ) is Ok,
    ensures
        flow_ok(
            eval_binary(fns, fuel, op, lhs, rhs, m).0,
            eval_binary(fns, fuel, op, lhs, rhs, m).1,
            ts,
            ret,
            binary_type(
                op,
                expr_type(sigs, ts, ret, expr_view(lhs))->Ok_0,
                expr_type(sigs, ts, ret, expr_view(rhs))->Ok_0,
            )->Ok_0,
        ),
    decreases fuel, 0nat,
{
    if fuel > 0 {
        let f = (fuel - 1) as nat;
        lemma_expr(fns, sigs, f, lhs, m, ts, ret);
        let (r1, m1) = eval_expr(fns, f, lhs, m);
        if let Ok(Flow::Normal(l)) = r1 {
            lemma_expr(fns, sigs, f, rhs, m1, ts, ret);
            let (r2, m2) = eval_expr(fns, f, rhs, m1);
            if let Ok(Flow::Normal(rv)) = r2 {
                if op != BinOp::And && op != BinOp::Or {
                    lemma_binop(op, l, rv);
                }
            }
        }
    }
}

proof fn lemma_args(
    fns: Seq<FunctionDecl>,
    sigs: Map<Seq<char>, SigView>,
    fuel: nat,
    args: Seq<Expr>,
    i: int,
    acc: Seq<Value>,
    m: Machine,
    ts: TypeScopes,
    ret: Type,
    callee: Seq<char>,
    params: Seq<Type>,
)
    requires
        fns_ok(fns, sigs),
        scopes_match(m.scopes, ts),
        0 <= i <= args.len(),
        args.len() == params.len(),
        acc.len() == i,
        forall|k: int| 0 <= k < i ==> value_type(#[trigger] acc[k]) == params[k],
        args_check(
            sigs,
            ts,
            ret,
            callee,
            args_view(args).subrange(i, args.len() as int),
            params.subrange(i, args.len() as int),
            i as nat,
        ) is Ok,
    ensures
        ({
            let (r, vals, m1) = eval_args(fns, fuel, args, i, acc, m);
            &&& r != Err::<Option<Value>, Fault>(Fault::Stuck)
            &&& r == Ok::<Option<Value>, Fault>(None) ==> {
                &&& vals.len() == args.len()
                &&& forall|k: int| 0 <= k < args.len() ==> value_type(#[trigger] vals[k]) == params[k]
                &&& scopes_match(m1.scopes, ts)
            }
            &&& r matches Ok(Some(v)) ==> value_type(v) == ret
        }),
    decreases fuel, 0nat,
{
    let n = args.len() as int;
    if fuel > 0 && i < n {
        let f = (fuel - 1) as nat;
        let av = args_view(args);
        let rest = av.subrange(i, n);
        let ps = params.subrange(i, n);
        assert(rest[0] == expr_view(args[i]));
        assert(ps[0] == params[i]);
        assert(rest.subrange(1, rest.len() as int) =~= av.subrange(i + 1, n));
        assert(ps.subrange(1, ps.len() as int) =~= params.subrange(i + 1, n));
        lemma_expr(fns, sigs, f, args[i], m, ts, ret);
        let (r, m1) = eval_expr(fns, f, args[i], m);
        if let Ok(Flow::Normal(v)) = r {
            let acc2 = acc.push(v);
            assert forall|k: int| 0 <= k < i + 1 implies value_type(#[trigger] acc2[k]) == params[k] by {
                if k < i {
                    assert(acc2[k] == acc[k]);
                }
            }
            lemma_args(fns, sigs, f, args, i + 1, acc2, m1, ts, ret, callee, params);
        }
    }
}

proof fn lemma_block(
    fns: Seq<FunctionDecl>,
    sigs: Map<Seq<char>, SigView>,
    fuel: nat,
    b: Block,
    m: Machine,
    ts: TypeScopes,
    ret: Type,
)
    requires
        fns_ok(fns, sigs),
        scopes_match(m.scopes, ts),
        block_type(sigs, ts, ret, block_view(b)) is Ok,
    ensures
        flow_ok(
            run_block(fns, fuel, b, m).0,
            run_block(fns, fuel, b, m).1,
            ts,
            ret,
            block_type(sigs, ts, ret, block_view(b))->Ok_0,
        ),
    decreases fuel, 0nat,
{
    if fuel > 0 {
        let f = (fuel - 1) as nat;
        let m0 = Machine { scopes: m.scopes.push(Map::empty()), out: m.out };
        let ts0 = ts.push(Map::empty());
        lemma_push_match(m.scopes, ts);
        let sv = block_view(b).stmts;
        let n = b.stmts@.len() as int;
        assert(sv.subrange(0, n) =~= sv);
        lemma_stmts(fns, sigs, f, b.stmts@, 0, m0, ts0, ret, sv);
        lemma_stmts_frame(sigs, ts0, ret, sv);
        let inner = stmts_check(sigs, ts0, ret, sv)->Ok_0;
        assert(inner.drop_last() == ts0.drop_last());
        assert(ts0.drop_last() =~= ts);
        let (r, m1) = run_stmts(fns, f, b.stmts@, 0, m0);
        if r == Ok::<Option<Value>, Fault>(None) {
            match b.tail {
                None => {
                    lemma_pop_match(m1.scopes, inner);
                },
                Some(t) => {
                    lemma_expr(fns, sigs, f, *t, m1, inner, ret);
                    let (r2, m2) = eval_expr(fns, f, *t, m1);
                    if r2 is Ok && r2->Ok_0 is Normal {
                        lemma_pop_match(m2.scopes, inner);
                    }
                },
            }
        }
    }
}

proof fn lemma_stmts(
    fns: Seq<FunctionDecl>,
    sigs: Map<Seq<char>, SigView>,
    fuel: nat,
    stmts: Seq<Stmt>,
    i: int,
    m: Machine,
    ts: TypeScopes,
    ret: Type,
    sv: Seq<StmtView>,
)
    requires
        fns_ok(fns, sigs),
        scopes_match(m.scopes, ts),
        ts.len() >= 1,
        sv.len() == stmts.len(),
        forall|k: int| 0 <= k < stmts.len() ==> sv[k] == stmt_view(#[trigger] stmts[k]),
        0 <= i <= stmts.len(),
        stmts_check(sigs, ts, ret, sv.subrange(i, stmts.len() as int)) is Ok,
    ensures
        ({
            let (r, m1) = run_stmts(fns, fuel, stmts, i, m);
            &&& r != Err::<Option<Value>, Fault>(Fault::Stuck)
            &&& r == Ok::<Option<Value>, Fault>(None) ==> scopes_match(
                m1.scopes,
                stmts_check(sigs, ts, ret, sv.subrange(i, stmts.len() as int))->Ok_0,
            )
            &&& r matches Ok(Some(v)) ==> value_type(v) == ret
        }),
    decreases fuel, 0nat,
{
    let n = stmts.len() as int;
    if fuel > 0 {
        if i >= n {
            assert(sv.subrange(i, n) =~= Seq::<StmtView>::empty());
        } else {
            let f = (fuel - 1) as nat;
            let rest = sv.subrange(i, n);
            assert(rest[0] == stmt_view(stmts[i]));
            assert(rest.subrange(1, rest.len() as int) =~= sv.subrange(i + 1, n));
            lemma_stmt(fns, sigs, f, stmts[i], m, ts, ret);
            let next = stmt_check(sigs, ts, ret, stmt_view(stmts[i]))->Ok_0;
            lemma_stmt_frame(sigs, ts, ret, stmt_view(stmts[i]));
            let (r, m1) = run_stmt(fns, f, stmts[i], m);
            if r is Ok && r->Ok_0 is Normal {
                lemma_stmts(fns, sigs, f, stmts, i + 1, m1, next, ret, sv);
            }
        }
    }
}

proof fn lemma_stmt(
    fns: Seq<FunctionDecl>,
    sigs: Map<Seq<char>, SigView>,
    fuel: nat,
    s: Stmt,
    m: Machine,
    ts: TypeScopes,
    ret: Type,
)
    requires
        fns_ok(fns, sigs),
        scopes_match(m.scopes, ts),
        ts.len() >= 1,
        stmt_check(sigs, ts, ret, stmt_view(s)) is Ok,
    ensures
        ({
            let (r, m1) = run_stmt(fns, fuel, s, m);
            &&& r != Err::<Flow, Fault>(Fault::Stuck)
            &&& r matches Ok(Flow::Normal(_)) ==> scopes_match(
                m1.scopes,
                stmt_check(sigs, ts, ret, stmt_view(s))->Ok_0,
            )
            &&& r matches Ok(Flow::Return(v)) ==> value_type(v) == ret
        }),
    decreases fuel, 0nat,
{
    if fuel > 0 {
        let f = (fuel - 1) as nat;
        match s {
            Stmt::Let { name, mutable, ty, value } => {
                lemma_expr(fns, sigs, f, value, m, ts, ret);
                let (r, m1) = eval_expr(fns, f, value, m);
                if let Ok(Flow::Normal(v)) = r {
                    let found = expr_type(sigs, ts, ret, expr_view(value))->Ok_0;
                    let bound = match ty {
                        Some(d) => d,
                        None => found,
                    };
                    lemma_declare_match(m1.scopes, ts, name@, v, VarInfo { ty: bound, mutable });
                }
            },
            Stmt::Return(None) => {},
            Stmt::Return(Some(e)) => {
                lemma_expr(fns, sigs, f, e, m, ts, ret);
            },
            Stmt::While { cond, body } => {
                lemma_while(fns, sigs, f, cond, body, m, ts, ret);
            },
            Stmt::Expr(e) => {
                lemma_expr(fns, sigs, f, e, m, ts, ret);
            },
        }
    }
}

proof fn lemma_while(
    fns: Seq<FunctionDecl>,
    sigs: Map<Seq<char>, SigView>,
    fuel: nat,
    cond: Expr,
    body: Block,
    m: Machine,
    ts: TypeScopes,
    ret: Type,
)
    requires
        fns_ok(fns, sigs),
        scopes_match(m.scopes, ts),
        expr_type(sigs, ts, ret, expr_view(cond)) == Ok::<Type, crate::typechecker::TypeErrorView>(
            Type::Bool,
        ),
        block_type(sigs, ts, ret, block_view(body)) is Ok,
    ensures
        ({
            let (r, m1) = run_while(fns, fuel, cond, body, m);
            &&& r != Err::<Flow, Fault>(Fault::Stuck)
            &&& r matches Ok(Flow::Normal(_)) ==> scopes_match(m1.scopes, ts)
            &&& r matches Ok(Flow::Return(v)) ==> value_type(v) == ret
        }),
    decreases fuel, 0nat,
{
    if fuel > 0 {
        let f = (fuel - 1) as nat;
        lemma_expr(fns, sigs, f, cond, m, ts, ret);
        let (r, m1) = eval_expr(fns, f, cond, m);
        if r == Ok::<Flow, Fault>(Flow::Normal(Value::Bool(true))) {
            lemma_block(fns, sigs, f, body, m1, ts, ret);
            let (r2, m2) = run_block(fns, f, body, m1);
            if r2 is Ok && r2->Ok_0 is Normal {
                lemma_while(fns, sigs, f, cond, body, m2, ts, ret);
            }
        }
    }
}

proof fn lemma_call(
    fns: Seq<FunctionDecl>,
    sigs: Map<Seq<char>, SigView>,
    fuel: nat,
    fd: FunctionDecl,
    vals: Seq<Value>,
    out: Seq<Value>,
)
    requires
        fns_ok(fns, sigs),
        function_check(sigs, function_view(fd)) is Ok,
        vals.len() == fd.params@.len(),
        forall|k: int| 0 <= k < vals.len() ==> value_type(#[trigger] vals[k]) == fd.params@[k].ty,
    ensures
        call_fn(fns, fuel, fd, vals, out).0 != Err::<Value, Fault>(Fault::Stuck),
        call_fn(fns, fuel, fd, vals, out).0 matches Ok(v) ==> value_type(v) == fd.return_type,
    decreases fuel, 0nat,
{
    if fuel > 0 {
        let f = (fuel - 1) as nat;
        let n = fd.params@.len() as int;
        let fv = function_view(fd);
        lemma_bind(fd.params@, vals, n);
        assert(fd.params@.map_values(|p: Param| param_view(p)).take(n) =~= fv.params);
        let scope = bind_params(fd.params@, vals, n);
        let ts = seq![params_scope(fv.params)];
        assert(scopes_match(seq![scope], ts)) by {
            assert(seq![scope][0] == scope);
        }
        lemma_block(fns, sigs, f, fd.body, Machine { scopes: seq![scope], out }, ts, fd.return_type);
    }
}

/// Type soundness: when the type checker accepts a program whose `main`
/// takes no parameters, running it never gets stuck, with any amount of
/// fuel; and a value it ends with has `main`'s declared return type. Only
/// runtime errors (division by zero, overflow, an out-of-range literal, a
/// missing `main`) and running out of fuel remain.
pub proof fn well_typed_programs_do_not_get_stuck(p: Program, fuel: nat)
    requires
        program_check(program_view(p)) is Ok,
        lookup_fn(program_decls(p), "main"@) matches Some(fd) ==> fd.params@.len() == 0,
    ensures
        run_program(program_decls(p), fuel).0 != Err::<Value, Fault>(Fault::Stuck),
        run_program(program_decls(p), fuel).0 matches Ok(v) ==> value_type(v) == lookup_fn(
            program_decls(p),
            "main"@,
        )->Some_0.return_type,
{
    let fns = program_decls(p);
    let all = lemma_program_fns_ok(p);
    if lookup_fn(fns, "main"@) is Some {
        let fd = lookup_fn(fns, "main"@)->Some_0;
        lemma_lookup_fn(fns, "main"@);
        let j = choose|j: int| 0 <= j < fns.len() && (#[trigger] fns[j]) == fd && fns[j].name@ == "main"@;
        assert(function_check(all, function_view(fns[j])) is Ok);
        lemma_call(fns, all, fuel, fd, seq![], seq![]);
    }
}

} // verus!
