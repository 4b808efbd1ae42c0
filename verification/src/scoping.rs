//! Scoping laws of the semantics: which variables exist changes only
//! through `let`, and only in the innermost scope; a block that completes
//! drops the scope it opened, so what it declared is gone after it.
use vstd::prelude::*;

use crate::ast::{BinOp, Block, ElseBranch, Expr, FunctionDecl, Stmt};
use crate::interpreter::Value;
use crate::semantics::{
    assign_var, declare_var, eval_args, eval_binary, eval_expr, lookup_var, pop_scope, run_block,
    run_stmt, run_stmts, run_while, Fault, Flow, Machine,
};

verus! {

/// The names each scope binds, innermost last.
pub open spec fn bindings(scopes: Seq<Map<Seq<char>, Value>>) -> Seq<Set<Seq<char>>> {
    scopes.map_values(|s: Map<Seq<char>, Value>| s.dom())
}

/// `b` binds what `a` does, except perhaps in its innermost scope.
pub open spec fn same_outer_bindings(a: Seq<Map<Seq<char>, Value>>, b: Seq<Map<Seq<char>, Value>>) -> bool {
    &&& a.len() == b.len()
    &&& a.len() > 0 ==> bindings(a).drop_last() == bindings(b).drop_last()
}

proof fn lemma_assign_bindings(scopes: Seq<Map<Seq<char>, Value>>, name: Seq<char>, v: Value)
    requires
        lookup_var(scopes, name) is Some,
    ensures
        bindings(assign_var(scopes, name, v)) == bindings(scopes),
    decreases scopes.len(),
{
    let a = assign_var(scopes, name, v);
    if scopes.last().contains_key(name) {
        assert(bindings(a) =~= bindings(scopes)) by {
            assert(a[scopes.len() - 1].dom() =~= scopes.last().dom());
        }
    } else {
        lemma_assign_bindings(scopes.drop_last(), name, v);
        assert(bindings(a) =~= bindings(scopes)) by {
            assert(bindings(a) =~= bindings(assign_var(scopes.drop_last(), name, v)).push(
                scopes.last().dom(),
            ));
            assert(bindings(scopes) =~= bindings(scopes.drop_last()).push(scopes.last().dom()));
        }
    }
}

proof fn lemma_scoping_expr(fns: Seq<FunctionDecl>, fuel: nat, e: Expr, m: Machine)
    ensures
        eval_expr(fns, fuel, e, m).0 matches Ok(Flow::Normal(_)) ==> bindings(
            eval_expr(fns, fuel, e, m).1.scopes,
        ) == bindings(m.scopes),
    decreases fuel,
{
    if fuel > 0 {
        let f = (fuel - 1) as nat;
        match e {
            Expr::Unary { expr, .. } => {
                lemma_scoping_expr(fns, f, *expr, m);
            },
            Expr::Binary { op, lhs, rhs } => {
                lemma_scoping_binary(fns, f, op, *lhs, *rhs, m);
            },
            Expr::Assign { name, value } => {
                lemma_scoping_expr(fns, f, *value, m);
                let (r, m1) = eval_expr(fns, f, *value, m);
                if let Ok(Flow::Normal(v)) = r {
                    if lookup_var(m1.scopes, name@) is Some {
                        lemma_assign_bindings(m1.scopes, name@, v);
                    }
                }
            },
            Expr::Call { args, .. } => {
                lemma_scoping_args(fns, f, args@, 0, seq![], m);
            },
            Expr::If { cond, then_branch, else_branch } => {
                lemma_scoping_expr(fns, f, *cond, m);
                let (r, m1) = eval_expr(fns, f, *cond, m);
                match r {
                    Ok(Flow::Normal(Value::Bool(true))) => {
                        lemma_scoping_block(fns, f, then_branch, m1);
                    },
                    Ok(Flow::Normal(Value::Bool(false))) => match else_branch {
                        None => {},
                        Some(br) => match *br {
                            ElseBranch::Block(b) => {
                                lemma_scoping_block(fns, f, b, m1);
                            },
                            ElseBranch::If(inner) => {
                                lemma_scoping_expr(fns, f, *inner, m1);
                            },
                        },
                    },
                    _ => {},
                }
            },
            Expr::Block(b) => {
                lemma_scoping_block(fns, f, b, m);
            },
            _ => {},
        }
    }
}

proof fn lemma_scoping_binary(
    fns: Seq<FunctionDecl>,
    fuel: nat,
    op: BinOp,
    lhs: Expr,
    rhs: Expr,
    m: Machine,
)
    ensures
        eval_binary(fns, fuel, op, lhs, rhs, m).0 matches Ok(Flow::Normal(_)) ==> bindings(
            eval_binary(fns, fuel, op, lhs, rhs, m).1.scopes,
        ) == bindings(m.scopes),
    decreases fuel,
{
    if fuel > 0 {
        let f = (fuel - 1) as nat;
        lemma_scoping_expr(fns, f, lhs, m);
        let (r1, m1) = eval_expr(fns, f, lhs, m);
        if let Ok(Flow::Normal(_)) = r1 {
            lemma_scoping_expr(fns, f, rhs, m1);
        }
    }
}

proof fn lemma_scoping_args(
    fns: Seq<FunctionDecl>,
    fuel: nat,
    args: Seq<Expr>,
    i: int,
    acc: Seq<Value>,
    m: Machine,
)
    ensures
        eval_args(fns, fuel, args, i, acc, m).0 == Ok::<Option<Value>, Fault>(None) ==> bindings(
            eval_args(fns, fuel, args, i, acc, m).2.scopes,
        ) == bindings(m.scopes),
    decreases fuel,
{
    if fuel > 0 && 0 <= i < args.len() {
        let f = (fuel - 1) as nat;
        lemma_scoping_expr(fns, f, args[i], m);
        let (r, m1) = eval_expr(fns, f, args[i], m);
        if let Ok(Flow::Normal(v)) = r {
            lemma_scoping_args(fns, f, args, i + 1, acc.push(v), m1);
        }
    }
}

proof fn lemma_scoping_block(fns: Seq<FunctionDecl>, fuel: nat, b: Block, m: Machine)
    ensures
        run_block(fns, fuel, b, m).0 matches Ok(Flow::Normal(_)) ==> bindings(
            run_block(fns, fuel, b, m).1.scopes,
        ) == bindings(m.scopes),
    decreases fuel,
{
    if fuel > 0 {
        let f = (fuel - 1) as nat;
        let m0 = Machine { scopes: m.scopes.push(Map::empty()), out: m.out };
        lemma_scoping_stmts(fns, f, b.stmts@, 0, m0);
        let (r, m1) = run_stmts(fns, f, b.stmts@, 0, m0);
        if r == Ok::<Option<Value>, Fault>(None) {
            assert(bindings(pop_scope(m1.scopes)) =~= bindings(m1.scopes).drop_last());
            assert(bindings(m0.scopes).drop_last() =~= bindings(m.scopes));
            if let Some(t) = b.tail {
                lemma_scoping_expr(fns, f, *t, m1);
                let (r2, m2) = eval_expr(fns, f, *t, m1);
                if let Ok(Flow::Normal(_)) = r2 {
                    assert(bindings(m2.scopes).len() == m2.scopes.len());
                    assert(bindings(pop_scope(m2.scopes)) =~= bindings(m2.scopes).drop_last());
                }
            }
        }
    }
}

proof fn lemma_scoping_stmts(fns: Seq<FunctionDecl>, fuel: nat, stmts: Seq<Stmt>, i: int, m: Machine)
    ensures
        run_stmts(fns, fuel, stmts, i, m).0 == Ok::<Option<Value>, Fault>(None) ==> same_outer_bindings(
            m.scopes,
            run_stmts(fns, fuel, stmts, i, m).1.scopes,
        ),
    decreases fuel,
{
    if fuel > 0 && 0 <= i < stmts.len() {
        let f = (fuel - 1) as nat;
        lemma_scoping_stmt(fns, f, stmts[i], m);
        let (r, m1) = run_stmt(fns, f, stmts[i], m);
        if let Ok(Flow::Normal(_)) = r {
            lemma_scoping_stmts(fns, f, stmts, i + 1, m1);
        }
    }
}

proof fn lemma_scoping_stmt(fns: Seq<FunctionDecl>, fuel: nat, s: Stmt, m: Machine)
    ensures
        run_stmt(fns, fuel, s, m).0 matches Ok(Flow::Normal(_)) ==> same_outer_bindings(
            m.scopes,
            run_stmt(fns, fuel, s, m).1.scopes,
        ),
    decreases fuel,
{
    if fuel > 0 {
        let f = (fuel - 1) as nat;
        match s {
            Stmt::Let { name, value, .. } => {
                lemma_scoping_expr(fns, f, value, m);
                let (r, m1) = eval_expr(fns, f, value, m);
                if let Ok(Flow::Normal(v)) = r {
                    let d = declare_var(m1.scopes, name@, v);
                    if m1.scopes.len() > 0 {
                        assert(bindings(d).drop_last() =~= bindings(m1.scopes).drop_last());
                    }
                }
            },
            Stmt::Return(_) => {},
            Stmt::While { cond, body } => {
                lemma_scoping_while(fns, f, cond, body, m);
                lemma_same_bindings(m.scopes, run_while(fns, f, cond, body, m).1.scopes);
            },
            Stmt::Expr(e) => {
                lemma_scoping_expr(fns, f, e, m);
                lemma_same_bindings(m.scopes, eval_expr(fns, f, e, m).1.scopes);
            },
        }
    }
}

proof fn lemma_same_bindings(a: Seq<Map<Seq<char>, Value>>, b: Seq<Map<Seq<char>, Value>>)
    ensures
        bindings(a) == bindings(b) ==> same_outer_bindings(a, b),
{
    if bindings(a) == bindings(b) {
        assert(a.len() == bindings(a).len());
        assert(b.len() == bindings(b).len());
    }
}

proof fn lemma_scoping_while(fns: Seq<FunctionDecl>, fuel: nat, cond: Expr, body: Block, m: Machine)
    ensures
        run_while(fns, fuel, cond, body, m).0 matches Ok(Flow::Normal(_)) ==> bindings(
            run_while(fns, fuel, cond, body, m).1.scopes,
        ) == bindings(m.scopes),
    decreases fuel,
{
    if fuel > 0 {
        let f = (fuel - 1) as nat;
        lemma_scoping_expr(fns, f, cond, m);
        let (r, m1) = eval_expr(fns, f, cond, m);
        if r == Ok::<Flow, Fault>(Flow::Normal(Value::Bool(true))) {
            lemma_scoping_block(fns, f, body, m1);
            let (r2, m2) = run_block(fns, f, body, m1);
            if let Ok(Flow::Normal(_)) = r2 {
                lemma_scoping_while(fns, f, cond, body, m2);
            }
        }
    }
}

/// What one block opens it closes: a block that completes normally leaves
/// the same names bound in the same scopes as before it (what it declared
/// is gone; assignments may have changed values, not bindings).
pub proof fn blocks_restore_bindings(fns: Seq<FunctionDecl>, fuel: nat, b: Block, m: Machine)
    ensures
        run_block(fns, fuel, b, m).0 matches Ok(Flow::Normal(_)) ==> bindings(
            run_block(fns, fuel, b, m).1.scopes,
        ) == bindings(m.scopes),
{
    lemma_scoping_block(fns, fuel, b, m);
}

/// Only a `let` binds a name, and only in the innermost scope: an
/// expression that completes normally leaves every scope binding the same
/// names, and a statement leaves all but the innermost one so.
pub proof fn only_let_binds(fns: Seq<FunctionDecl>, fuel: nat, e: Expr, s: Stmt, m: Machine)
    ensures
        eval_expr(fns, fuel, e, m).0 matches Ok(Flow::Normal(_)) ==> bindings(
            eval_expr(fns, fuel, e, m).1.scopes,
        ) == bindings(m.scopes),
        run_stmt(fns, fuel, s, m).0 matches Ok(Flow::Normal(_)) ==> same_outer_bindings(
            m.scopes,
            run_stmt(fns, fuel, s, m).1.scopes,
        ),
{
    lemma_scoping_expr(fns, fuel, e, m);
    lemma_scoping_stmt(fns, fuel, s, m);
}

} // verus!
