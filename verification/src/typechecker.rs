//! Type checker: validates a parsed `Program` before it is run.
//!
//! It stops at the first error and changes nothing in the program. It
//! works in two passes: the first registers every function signature (so a
//! function may call one declared after it, and two functions may call
//! each other), the second checks each body against that table. Builtins
//! are in the table from the start, so a program cannot redefine them.
use vstd::prelude::*;

use crate::ast::{
    param_view, block_view, else_view, expr_view, function_view, program_view, stmt_view, BinOp, Block,
    BlockView, ElseBranch, ElseView, Expr, ExprView, FunctionDecl, FunctionView, Item, ParamView,
    Program, Stmt, StmtView, Type, UnOp,
};
use crate::builtins::{builtin_params, builtin_table};
use crate::text::{nat_digits, push_nat_digits};

verus! {

// ---------------------------------------------------------------------
// Errors
// ---------------------------------------------------------------------

#[derive(Debug, Clone, PartialEq)]
pub enum TypeError {
    DuplicateFunction(String),
    UndefinedVariable(String),
    UndefinedFunction(String),
    AssignToImmutable(String),
    AssignTypeMismatch { name: String, expected: Type, found: Type },
    LetTypeMismatch { name: String, declared: Type, found: Type },
    ArgCountMismatch { func: String, expected: usize, found: usize },
    ArgTypeMismatch { func: String, index: usize, expected: Type, found: Type },
    ConditionNotBool { found: Type },
    IfBranchMismatch { then_ty: Type, else_ty: Type },
    UnaryOpTypeError { op: UnOp, found: Type },
    BinaryOpTypeError { op: BinOp, lhs: Type, rhs: Type },
    ReturnTypeMismatch { expected: Type, found: Type },
    FunctionBodyTypeMismatch { func: String, expected: Type, found: Type },
}

/// A type error with its names as character sequences.
pub enum TypeErrorView {
    DuplicateFunction(Seq<char>),
    UndefinedVariable(Seq<char>),
    UndefinedFunction(Seq<char>),
    AssignToImmutable(Seq<char>),
    AssignTypeMismatch { name: Seq<char>, expected: Type, found: Type },
    LetTypeMismatch { name: Seq<char>, declared: Type, found: Type },
    ArgCountMismatch { func: Seq<char>, expected: nat, found: nat },
    ArgTypeMismatch { func: Seq<char>, index: nat, expected: Type, found: Type },
    ConditionNotBool { found: Type },
    IfBranchMismatch { then_ty: Type, else_ty: Type },
    UnaryOpTypeError { op: UnOp, found: Type },
    BinaryOpTypeError { op: BinOp, lhs: Type, rhs: Type },
    ReturnTypeMismatch { expected: Type, found: Type },
    FunctionBodyTypeMismatch { func: Seq<char>, expected: Type, found: Type },
}

impl View for TypeError {
    type V = TypeErrorView;

    open spec fn view(&self) -> TypeErrorView {
        match self {
            TypeError::DuplicateFunction(n) => TypeErrorView::DuplicateFunction(n@),
            TypeError::UndefinedVariable(n) => TypeErrorView::UndefinedVariable(n@),
            TypeError::UndefinedFunction(n) => TypeErrorView::UndefinedFunction(n@),
            TypeError::AssignToImmutable(n) => TypeErrorView::AssignToImmutable(n@),
            TypeError::AssignTypeMismatch { name, expected, found } => TypeErrorView::AssignTypeMismatch {
                name: name@,
                expected: *expected,
                found: *found,
            },
            TypeError::LetTypeMismatch { name, declared, found } => TypeErrorView::LetTypeMismatch {
                name: name@,
                declared: *declared,
                found: *found,
            },
            TypeError::ArgCountMismatch { func, expected, found } => TypeErrorView::ArgCountMismatch {
                func: func@,
                expected: *expected as nat,
                found: *found as nat,
            },
            TypeError::ArgTypeMismatch { func, index, expected, found } => TypeErrorView::ArgTypeMismatch {
                func: func@,
                index: *index as nat,
                expected: *expected,
                found: *found,
            },
            TypeError::ConditionNotBool { found } => TypeErrorView::ConditionNotBool { found: *found },
            TypeError::IfBranchMismatch { then_ty, else_ty } => TypeErrorView::IfBranchMismatch {
                then_ty: *then_ty,
                else_ty: *else_ty,
            },
            TypeError::UnaryOpTypeError { op, found } => TypeErrorView::UnaryOpTypeError {
                op: *op,
                found: *found,
            },
            TypeError::BinaryOpTypeError { op, lhs, rhs } => TypeErrorView::BinaryOpTypeError {
                op: *op,
                lhs: *lhs,
                rhs: *rhs,
            },
            TypeError::ReturnTypeMismatch { expected, found } => TypeErrorView::ReturnTypeMismatch {
                expected: *expected,
                found: *found,
            },
            TypeError::FunctionBodyTypeMismatch { func, expected, found } => TypeErrorView::FunctionBodyTypeMismatch {
                func: func@,
                expected: *expected,
                found: *found,
            },
        }
    }
}

// ---------------------------------------------------------------------
// The typing rules
// ---------------------------------------------------------------------

/// What is known of a variable: its type and whether it was declared `mut`.
#[derive(Debug, Clone, Copy, PartialEq, Eq, Structural)]
pub struct VarInfo {
    pub ty: Type,
    pub mutable: bool,
}

/// A function's parameter types and return type.
pub struct SigView {
    pub params: Seq<Type>,
    pub ret: Type,
}

/// Variable scopes, innermost last.
pub type TypeScopes = Seq<Map<Seq<char>, VarInfo>>;

/// The signatures every program starts with: those of the builtins.
pub open spec fn builtin_sigs() -> Map<Seq<char>, SigView> {
    Map::new(
        |name: Seq<char>| builtin_params(name) is Some,
        |name: Seq<char>| SigView { params: builtin_params(name).unwrap(), ret: Type::Unit },
    )
}

/// The innermost binding of `name`.
pub open spec fn lookup_info(scopes: TypeScopes, name: Seq<char>) -> Option<VarInfo>
    decreases scopes.len(),
{
    if scopes.len() == 0 {
        None
    } else if scopes.last().contains_key(name) {
        Some(scopes.last()[name])
    } else {
        lookup_info(scopes.drop_last(), name)
    }
}

/// Binds `name` in the innermost scope, replacing a binding there.
pub open spec fn declare_info(scopes: TypeScopes, name: Seq<char>, info: VarInfo) -> TypeScopes {
    scopes.update(scopes.len() - 1, scopes.last().insert(name, info))
}

pub open spec fn unary_type(op: UnOp, found: Type) -> Result<Type, TypeErrorView> {
    match op {
        UnOp::Neg => if found == Type::I32 {
            Ok(Type::I32)
        } else {
            Err(TypeErrorView::UnaryOpTypeError { op, found })
        },
        UnOp::Not => if found == Type::Bool {
            Ok(Type::Bool)
        } else {
            Err(TypeErrorView::UnaryOpTypeError { op, found })
        },
    }
}

/// Arithmetic takes two `i32`s; comparison too and gives `bool`; `==` and
/// `!=` take two operands of one type other than `()`; `&&` and `||` take
/// two `bool`s.
pub open spec fn binary_type(op: BinOp, lhs: Type, rhs: Type) -> Result<Type, TypeErrorView> {
    let err = Err(TypeErrorView::BinaryOpTypeError { op, lhs, rhs });
    match op {
        BinOp::Add | BinOp::Sub | BinOp::Mul | BinOp::Div | BinOp::Mod => if lhs == Type::I32
            && rhs == Type::I32 {
            Ok(Type::I32)
        } else {
            err
        },
        BinOp::Lt | BinOp::Gt | BinOp::LtEq | BinOp::GtEq => if lhs == Type::I32 && rhs
            == Type::I32 {
            Ok(Type::Bool)
        } else {
            err
        },
        BinOp::Eq | BinOp::NotEq => if lhs == rhs && lhs != Type::Unit {
            Ok(Type::Bool)
        } else {
            err
        },
        BinOp::And | BinOp::Or => if lhs == Type::Bool && rhs == Type::Bool {
            Ok(Type::Bool)
        } else {
            err
        },
    }
}

/// How the checker types `lhs op rhs` from the types `l` and `r` of its
/// operands: `+ - * / %` take two `i32`s and give `i32`; `< > <= >=` take
/// two `i32`s and give `bool`; `==` and `!=` take two `i32`s or two `bool`s
/// and give `bool`; `&&` and `||` take two `bool`s and give `bool`. Any
/// other pair of operand types is refused with the error that names the
/// operator and both types.
pub proof fn binary_typing_rules(
    sigs: Map<Seq<char>, SigView>,
    scopes: TypeScopes,
    ret: Type,
    op: BinOp,
    lhs: ExprView,
    rhs: ExprView,
    l: Type,
    r: Type,
)
    requires
        expr_type(sigs, scopes, ret, lhs) == Ok::<Type, TypeErrorView>(l),
        expr_type(sigs, scopes, ret, rhs) == Ok::<Type, TypeErrorView>(r),
    ensures
        ({
            let t = expr_type(
                sigs,
                scopes,
                ret,
                ExprView::Binary { op, lhs: Box::new(lhs), rhs: Box::new(rhs) },
            );
            let refused = Err::<Type, TypeErrorView>(
                TypeErrorView::BinaryOpTypeError { op, lhs: l, rhs: r },
            );
            let ints = l == Type::I32 && r == Type::I32;
            let bools = l == Type::Bool && r == Type::Bool;
            &&& (op == BinOp::Add || op == BinOp::Sub || op == BinOp::Mul || op == BinOp::Div || op
                == BinOp::Mod) ==> t == if ints {
                Ok::<Type, TypeErrorView>(Type::I32)
            } else {
                refused
            }
            &&& (op == BinOp::Lt || op == BinOp::Gt || op == BinOp::LtEq || op == BinOp::GtEq) ==> t
                == if ints {
                Ok::<Type, TypeErrorView>(Type::Bool)
            } else {
                refused
            }
            &&& (op == BinOp::Eq || op == BinOp::NotEq) ==> t == if ints || bools {
                Ok::<Type, TypeErrorView>(Type::Bool)
            } else {
                refused
            }
            &&& (op == BinOp::And || op == BinOp::Or) ==> t == if bools {
                Ok::<Type, TypeErrorView>(Type::Bool)
            } else {
                refused
            }
        }),
{
}

/// How the checker types `-e` and `!e` from the type `t` of `e`: `-` takes
/// an `i32` and `!` a `bool`, each giving its operand's type; any other
/// operand is refused with the error that names the operator and the type.
pub proof fn unary_typing_rules(
    sigs: Map<Seq<char>, SigView>,
    scopes: TypeScopes,
    ret: Type,
    op: UnOp,
    e: ExprView,
    t: Type,
)
    requires
        expr_type(sigs, scopes, ret, e) == Ok::<Type, TypeErrorView>(t),
    ensures
        expr_type(sigs, scopes, ret, ExprView::Unary { op, expr: Box::new(e) }) == if (op
            == UnOp::Neg && t == Type::I32) || (op == UnOp::Not && t == Type::Bool) {
            Ok::<Type, TypeErrorView>(t)
        } else {
            Err::<Type, TypeErrorView>(TypeErrorView::UnaryOpTypeError { op, found: t })
        },
{
}

/// How the checker types `if`: the condition must be `bool`; without
/// `else`, the first block must be `()` and so is the `if`; with `else`,
/// both branches must have one type, which is the `if`'s.
pub proof fn if_typing_rules(
    sigs: Map<Seq<char>, SigView>,
    scopes: TypeScopes,
    ret: Type,
    cond: ExprView,
    then_branch: BlockView,
    else_branch: Option<Box<ElseView>>,
    c: Type,
    tt: Type,
    et: Type,
)
    requires
        expr_type(sigs, scopes, ret, cond) == Ok::<Type, TypeErrorView>(c),
    ensures
        ({
            let t = expr_type(
                sigs,
                scopes,
                ret,
                ExprView::If { cond: Box::new(cond), then_branch, else_branch },
            );
            &&& c != Type::Bool ==> t == Err::<Type, TypeErrorView>(
                TypeErrorView::ConditionNotBool { found: c },
            )
            &&& c == Type::Bool && block_type(sigs, scopes, ret, then_branch) == Ok::<
                Type,
                TypeErrorView,
            >(tt) && else_branch is None ==> t == if tt == Type::Unit {
                Ok::<Type, TypeErrorView>(Type::Unit)
            } else {
                Err::<Type, TypeErrorView>(
                    TypeErrorView::IfBranchMismatch { then_ty: tt, else_ty: Type::Unit },
                )
            }
            &&& c == Type::Bool && block_type(sigs, scopes, ret, then_branch) == Ok::<
                Type,
                TypeErrorView,
            >(tt) && else_branch is Some && else_type(sigs, scopes, ret, *else_branch.unwrap())
                == Ok::<Type, TypeErrorView>(et) ==> t == if tt == et {
                Ok::<Type, TypeErrorView>(tt)
            } else {
                Err::<Type, TypeErrorView>(TypeErrorView::IfBranchMismatch { then_ty: tt, else_ty: et })
            }
        }),
{
}

/// How the checker types `x = e`: `x` must be a variable in scope, declared
/// `mut`, of the type of `e`; the assignment has type `()`.
pub proof fn assignment_typing_rules(
    sigs: Map<Seq<char>, SigView>,
    scopes: TypeScopes,
    ret: Type,
    name: Seq<char>,
    value: ExprView,
    t: Type,
)
    requires
        expr_type(sigs, scopes, ret, value) == Ok::<Type, TypeErrorView>(t),
    ensures
        expr_type(sigs, scopes, ret, ExprView::Assign { name, value: Box::new(value) }) == match lookup_info(
            scopes,
            name,
        ) {
            None => Err::<Type, TypeErrorView>(TypeErrorView::UndefinedVariable(name)),
            Some(info) => if !info.mutable {
                Err::<Type, TypeErrorView>(TypeErrorView::AssignToImmutable(name))
            } else if info.ty != t {
                Err::<Type, TypeErrorView>(
                    TypeErrorView::AssignTypeMismatch { name, expected: info.ty, found: t },
                )
            } else {
                Ok::<Type, TypeErrorView>(Type::Unit)
            },
        },
{
}

/// How the checker takes statements: `let` needs the value to have the
/// declared type, if one is written, and binds the name with that type in
/// the innermost scope; `return` needs the function's return type (`()`
/// when no value is given); `while` needs a `bool` condition and a body
/// that checks; an expression statement needs its expression to check.
/// None but `let` changes the scopes.
pub proof fn statement_typing_rules(
    sigs: Map<Seq<char>, SigView>,
    scopes: TypeScopes,
    ret: Type,
    name: Seq<char>,
    mutable: bool,
    ty: Option<Type>,
    e: ExprView,
    body: BlockView,
    t: Type,
)
    requires
        expr_type(sigs, scopes, ret, e) == Ok::<Type, TypeErrorView>(t),
    ensures
        stmt_check(sigs, scopes, ret, StmtView::Let { name, mutable, ty, value: e }) == match ty {
            Some(declared) => if declared != t {
                Err::<TypeScopes, TypeErrorView>(
                    TypeErrorView::LetTypeMismatch { name, declared, found: t },
                )
            } else {
                Ok::<TypeScopes, TypeErrorView>(
                    scopes.update(scopes.len() - 1, scopes.last().insert(name, VarInfo { ty: t, mutable })),
                )
            },
            None => Ok::<TypeScopes, TypeErrorView>(
                scopes.update(scopes.len() - 1, scopes.last().insert(name, VarInfo { ty: t, mutable })),
            ),
        },
        stmt_check(sigs, scopes, ret, StmtView::Return(Some(e))) == if t == ret {
            Ok::<TypeScopes, TypeErrorView>(scopes)
        } else {
            Err::<TypeScopes, TypeErrorView>(TypeErrorView::ReturnTypeMismatch { expected: ret, found: t })
        },
        stmt_check(sigs, scopes, ret, StmtView::Return(None)) == if ret == Type::Unit {
            Ok::<TypeScopes, TypeErrorView>(scopes)
        } else {
            Err::<TypeScopes, TypeErrorView>(
                TypeErrorView::ReturnTypeMismatch { expected: ret, found: Type::Unit },
            )
        },
        stmt_check(sigs, scopes, ret, StmtView::While { cond: e, body }) == if t != Type::Bool {
            Err::<TypeScopes, TypeErrorView>(TypeErrorView::ConditionNotBool { found: t })
        } else {
            match block_type(sigs, scopes, ret, body) {
                Err(err) => Err::<TypeScopes, TypeErrorView>(err),
                Ok(_) => Ok::<TypeScopes, TypeErrorView>(scopes),
            }
        },
        stmt_check(sigs, scopes, ret, StmtView::Expr(e)) == Ok::<TypeScopes, TypeErrorView>(scopes),
{
}

proof fn lemma_args_check(
    sigs: Map<Seq<char>, SigView>,
    scopes: TypeScopes,
    ret: Type,
    callee: Seq<char>,
    args: Seq<ExprView>,
    params: Seq<Type>,
    ts: Seq<Type>,
    index: nat,
    j: int,
)
    requires
        args.len() == ts.len(),
        params.len() == ts.len(),
        forall|i: int| 0 <= i < args.len() ==> expr_type(sigs, scopes, ret, #[trigger] args[i]) == Ok::<Type, TypeErrorView>(ts[i]),
        0 <= j <= args.len(),
        forall|i: int| 0 <= i < j ==> ts[i] == params[i],
        j < args.len() ==> ts[j] != params[j],
    ensures
        args_check(sigs, scopes, ret, callee, args, params, index) == if j == args.len() {
            Ok::<(), TypeErrorView>(())
        } else {
            Err::<(), TypeErrorView>(
                TypeErrorView::ArgTypeMismatch {
                    func: callee,
                    index: (index + j) as nat,
                    expected: params[j],
                    found: ts[j],
                },
            )
        },
    decreases args.len(),
{
    if args.len() > 0 {
        assert(expr_type(sigs, scopes, ret, args[0]) == Ok::<Type, TypeErrorView>(ts[0]));
        if j > 0 {
            let n = args.len() as int;
            let a2 = args.subrange(1, n);
            let p2 = params.subrange(1, n);
            let t2 = ts.subrange(1, n);
            assert forall|i: int| 0 <= i < a2.len() implies expr_type(sigs, scopes, ret, #[trigger] a2[i])
                == Ok::<Type, TypeErrorView>(t2[i]) by {
                assert(a2[i] == args[i + 1]);
            }
            assert forall|i: int| 0 <= i < j - 1 implies t2[i] == p2[i] by {
                assert(t2[i] == ts[i + 1]);
                assert(p2[i] == params[i + 1]);
            }
            lemma_args_check(sigs, scopes, ret, callee, a2, p2, t2, index + 1, j - 1);
        }
    }
}

/// How the checker types a call whose arguments have types `ts`: the
/// callee must be a known function (a builtin or one of the program's); it
/// must get as many arguments as it has parameters; each argument must have
/// its parameter's type, the first one that does not (the `j`th) being
/// reported with its position; the call has the function's return type.
pub proof fn call_typing_rules(
    sigs: Map<Seq<char>, SigView>,
    scopes: TypeScopes,
    ret: Type,
    callee: Seq<char>,
    args: Seq<ExprView>,
    ts: Seq<Type>,
    j: int,
)
    requires
        args.len() == ts.len(),
        forall|i: int| 0 <= i < args.len() ==> expr_type(sigs, scopes, ret, #[trigger] args[i]) == Ok::<Type, TypeErrorView>(ts[i]),
    ensures
        ({
            let t = expr_type(sigs, scopes, ret, ExprView::Call { callee, args });
            let ps = sigs[callee].params;
            &&& !sigs.contains_key(callee) ==> t == Err::<Type, TypeErrorView>(
                TypeErrorView::UndefinedFunction(callee),
            )
            &&& sigs.contains_key(callee) && args.len() != ps.len() ==> t == Err::<Type, TypeErrorView>(
                TypeErrorView::ArgCountMismatch { func: callee, expected: ps.len(), found: args.len() },
            )
            &&& sigs.contains_key(callee) && args.len() == ps.len() && (forall|i: int|
                0 <= i < args.len() ==> ts[i] == ps[i]) ==> t == Ok::<Type, TypeErrorView>(
                sigs[callee].ret,
            )
            &&& sigs.contains_key(callee) && args.len() == ps.len() && 0 <= j < args.len() && ts[j]
                != ps[j] && (forall|i: int| 0 <= i < j ==> ts[i] == ps[i]) ==> t == Err::<
                Type,
                TypeErrorView,
            >(
                TypeErrorView::ArgTypeMismatch {
                    func: callee,
                    index: j as nat,
                    expected: ps[j],
                    found: ts[j],
                },
            )
        }),
{
    if sigs.contains_key(callee) && args.len() == sigs[callee].params.len() {
        let ps = sigs[callee].params;
        if forall|i: int| 0 <= i < args.len() ==> ts[i] == ps[i] {
            lemma_args_check(sigs, scopes, ret, callee, args, ps, ts, 0, args.len() as int);
        }
        if 0 <= j < args.len() && ts[j] != ps[j] && (forall|i: int| 0 <= i < j ==> ts[i] == ps[i]) {
            lemma_args_check(sigs, scopes, ret, callee, args, ps, ts, 0, j);
        }
    }
}

/// The type of `e`, given the function table, the scopes and the return
/// type of the function being checked; or the first error in it.
pub open spec fn expr_type(
    sigs: Map<Seq<char>, SigView>,
    scopes: TypeScopes,
    ret: Type,
    e: ExprView,
) -> Result<Type, TypeErrorView>
    decreases e,
{
    match e {
        ExprView::IntLit(_) => Ok(Type::I32),
        ExprView::BoolLit(_) => Ok(Type::Bool),
        ExprView::Ident(name) => match lookup_info(scopes, name) {
            Some(info) => Ok(info.ty),
            None => Err(TypeErrorView::UndefinedVariable(name)),
        },
        ExprView::Unary { op, expr } => match expr_type(sigs, scopes, ret, *expr) {
            Err(err) => Err(err),
            Ok(t) => unary_type(op, t),
        },
        ExprView::Binary { op, lhs, rhs } => match expr_type(sigs, scopes, ret, *lhs) {
            Err(err) => Err(err),
            Ok(l) => match expr_type(sigs, scopes, ret, *rhs) {
                Err(err) => Err(err),
                Ok(r) => binary_type(op, l, r),
            },
        },
        ExprView::Assign { name, value } => match expr_type(sigs, scopes, ret, *value) {
            Err(err) => Err(err),
            Ok(found) => match lookup_info(scopes, name) {
                None => Err(TypeErrorView::UndefinedVariable(name)),
                Some(info) => if !info.mutable {
                    Err(TypeErrorView::AssignToImmutable(name))
                } else if info.ty != found {
                    Err(TypeErrorView::AssignTypeMismatch { name, expected: info.ty, found })
                } else {
                    Ok(Type::Unit)
                },
            },
        },
        ExprView::Call { callee, args } => if !sigs.contains_key(callee) {
            Err(TypeErrorView::UndefinedFunction(callee))
        } else if args.len() != sigs[callee].params.len() {
            Err(
                TypeErrorView::ArgCountMismatch {
                    func: callee,
                    expected: sigs[callee].params.len(),
                    found: args.len(),
                },
            )
        } else {
            match args_check(sigs, scopes, ret, callee, args, sigs[callee].params, 0) {
                Err(err) => Err(err),
                Ok(_) => Ok(sigs[callee].ret),
            }
        },
        ExprView::If { cond, then_branch, else_branch } => match expr_type(sigs, scopes, ret, *cond) {
            Err(err) => Err(err),
            Ok(c) => if c != Type::Bool {
                Err(TypeErrorView::ConditionNotBool { found: c })
            } else {
                match block_type(sigs, scopes, ret, then_branch) {
                    Err(err) => Err(err),
                    Ok(then_ty) => match else_branch {
                        None => if then_ty != Type::Unit {
                            Err(TypeErrorView::IfBranchMismatch { then_ty, else_ty: Type::Unit })
                        } else {
                            Ok(Type::Unit)
                        },
                        Some(eb) => match else_type(sigs, scopes, ret, *eb) {
                            Err(err) => Err(err),
                            Ok(else_ty) => if then_ty != else_ty {
                                Err(TypeErrorView::IfBranchMismatch { then_ty, else_ty })
                            } else {
                                Ok(then_ty)
                            },
                        },
                    },
                }
            }
        },
        ExprView::Block(b) => block_type(sigs, scopes, ret, b),
    }
}

/// Checks call arguments left to right against the parameter types;
/// `index` is the position of `args[0]` in the call.
pub open spec fn args_check(
    sigs: Map<Seq<char>, SigView>,
    scopes: TypeScopes,
    ret: Type,
    callee: Seq<char>,
    args: Seq<ExprView>,
    params: Seq<Type>,
    index: nat,
) -> Result<(), TypeErrorView>
    decreases args,
{
    if args.len() == 0 {
        Ok(())
    } else {
        match expr_type(sigs, scopes, ret, args[0]) {
            Err(err) => Err(err),
            Ok(found) => if found != params[0] {
                Err(TypeErrorView::ArgTypeMismatch { func: callee, index, expected: params[0], found })
            } else {
                args_check(
                    sigs,
                    scopes,
                    ret,
                    callee,
                    args.subrange(1, args.len() as int),
                    params.subrange(1, params.len() as int),
                    index + 1,
                )
            },
        }
    }
}

pub open spec fn else_type(
    sigs: Map<Seq<char>, SigView>,
    scopes: TypeScopes,
    ret: Type,
    eb: ElseView,
) -> Result<Type, TypeErrorView>
    decreases eb,
{
    match eb {
        ElseView::Block(b) => block_type(sigs, scopes, ret, b),
        ElseView::If(e) => expr_type(sigs, scopes, ret, *e),
    }
}

/// A block's type: that of its tail, or `()`; checked in a scope of its own.
pub open spec fn block_type(
    sigs: Map<Seq<char>, SigView>,
    scopes: TypeScopes,
    ret: Type,
    b: BlockView,
) -> Result<Type, TypeErrorView>
    decreases b,
{
    match stmts_check(sigs, scopes.push(Map::empty()), ret, b.stmts) {
        Err(err) => Err(err),
        Ok(inner) => match b.tail {
            None => Ok(Type::Unit),
            Some(t) => expr_type(sigs, inner, ret, *t),
        },
    }
}

/// Checks statements in order; gives the scopes after the last one.
pub open spec fn stmts_check(
    sigs: Map<Seq<char>, SigView>,
    scopes: TypeScopes,
    ret: Type,
    ss: Seq<StmtView>,
) -> Result<TypeScopes, TypeErrorView>
    decreases ss,
{
    if ss.len() == 0 {
        Ok(scopes)
    } else {
        match stmt_check(sigs, scopes, ret, ss[0]) {
            Err(err) => Err(err),
            Ok(next) => stmts_check(sigs, next, ret, ss.subrange(1, ss.len() as int)),
        }
    }
}

/// Checks one statement; gives the scopes after it (a `let` binds its name
/// in the innermost scope).
pub open spec fn stmt_check(
    sigs: Map<Seq<char>, SigView>,
    scopes: TypeScopes,
    ret: Type,
    s: StmtView,
) -> Result<TypeScopes, TypeErrorView>
    decreases s,
{
    match s {
        StmtView::Let { name, mutable, ty, value } => match expr_type(sigs, scopes, ret, value) {
            Err(err) => Err(err),
            Ok(found) => match ty {
                Some(declared) => if declared != found {
                    Err(TypeErrorView::LetTypeMismatch { name, declared, found })
                } else {
                    Ok(declare_info(scopes, name, VarInfo { ty: declared, mutable }))
                },
                None => Ok(declare_info(scopes, name, VarInfo { ty: found, mutable })),
            },
        },
        StmtView::Return(value) => {
            let found = match value {
                None => Ok(Type::Unit),
                Some(e) => expr_type(sigs, scopes, ret, e),
            };
            match found {
                Err(err) => Err(err),
                Ok(t) => if t != ret {
                    Err(TypeErrorView::ReturnTypeMismatch { expected: ret, found: t })
                } else {
                    Ok(scopes)
                },
            }
        },
        StmtView::While { cond, body } => match expr_type(sigs, scopes, ret, cond) {
            Err(err) => Err(err),
            Ok(c) => if c != Type::Bool {
                Err(TypeErrorView::ConditionNotBool { found: c })
            } else {
                match block_type(sigs, scopes, ret, body) {
                    Err(err) => Err(err),
                    Ok(_) => Ok(scopes),
                }
            },
        },
        StmtView::Expr(e) => match expr_type(sigs, scopes, ret, e) {
            Err(err) => Err(err),
            Ok(_) => Ok(scopes),
        },
    }
}

/// The scope of a function's parameters: each immutable, a later one
/// replacing an earlier one of the same name.
pub open spec fn params_scope(ps: Seq<ParamView>) -> Map<Seq<char>, VarInfo>
    decreases ps.len(),
{
    if ps.len() == 0 {
        Map::empty()
    } else {
        params_scope(ps.drop_last()).insert(
            ps.last().name,
            VarInfo { ty: ps.last().ty, mutable: false },
        )
    }
}

/// Checks one function: its body must have its declared return type.
pub open spec fn function_check(sigs: Map<Seq<char>, SigView>, f: FunctionView) -> Result<
    (),
    TypeErrorView,
> {
    match block_type(sigs, seq![params_scope(f.params)], f.return_type, f.body) {
        Err(err) => Err(err),
        Ok(t) => if t != f.return_type {
            Err(
                TypeErrorView::FunctionBodyTypeMismatch {
                    func: f.name,
                    expected: f.return_type,
                    found: t,
                },
            )
        } else {
            Ok(())
        },
    }
}

/// A function's parameters are in scope in its body, each immutable and of
/// its declared type (when two share a name, the later one counts); no
/// other name is.
pub proof fn parameters_are_immutable(ps: Seq<ParamView>)
    ensures
        forall|n: Seq<char>| #[trigger] params_scope(ps).contains_key(n) <==> exists|i: int|
            0 <= i < ps.len() && ps[i].name == n,
        forall|i: int|
            0 <= i < ps.len() && (forall|j: int| i < j < ps.len() ==> ps[j].name != ps[i].name)
                ==> params_scope(ps)[(#[trigger] ps[i]).name] == (VarInfo { ty: ps[i].ty, mutable: false }),
    decreases ps.len(),
{
    if ps.len() > 0 {
        let d = ps.drop_last();
        parameters_are_immutable(d);
        assert forall|n: Seq<char>| #[trigger] params_scope(ps).contains_key(n) <==> exists|i: int|
            0 <= i < ps.len() && ps[i].name == n by {
            if params_scope(ps).contains_key(n) && n != ps.last().name {
                let i = choose|i: int| 0 <= i < d.len() && d[i].name == n;
                assert(ps[i] == d[i]);
            }
            if exists|i: int| 0 <= i < ps.len() && ps[i].name == n {
                let i = choose|i: int| 0 <= i < ps.len() && ps[i].name == n;
                if i < d.len() {
                    assert(d[i] == ps[i]);
                }
            }
        }
        assert forall|i: int|
            0 <= i < ps.len() && (forall|j: int| i < j < ps.len() ==> ps[j].name != ps[i].name)
                implies params_scope(ps)[(#[trigger] ps[i]).name] == (VarInfo {
            ty: ps[i].ty,
            mutable: false,
        }) by {
            if i < d.len() {
                assert(d[i] == ps[i]);
                assert(ps[ps.len() - 1].name != ps[i].name);
                assert forall|j: int| i < j < d.len() implies d[j].name != d[i].name by {
                    assert(d[j] == ps[j]);
                }
            }
        }
    }
}

/// A function checks when its body, checked with the parameters in scope
/// and the declared return type for `return`, has the declared return
/// type; otherwise the mismatch names the function and both types.
pub proof fn function_typing_rule(sigs: Map<Seq<char>, SigView>, f: FunctionView, t: Type)
    requires
        block_type(sigs, seq![params_scope(f.params)], f.return_type, f.body) == Ok::<
            Type,
            TypeErrorView,
        >(t),
    ensures
        function_check(sigs, f) == if t == f.return_type {
            Ok::<(), TypeErrorView>(())
        } else {
            Err::<(), TypeErrorView>(
                TypeErrorView::FunctionBodyTypeMismatch {
                    func: f.name,
                    expected: f.return_type,
                    found: t,
                },
            )
        },
{
}

/// The views of call arguments, as `expr_view` gives them.
pub open spec fn args_view(args: Seq<Expr>) -> Seq<ExprView> {
    Seq::new(
        args.len(),
        |i: int|
            if 0 <= i < args.len() {
                expr_view(args[i])
            } else {
                ExprView::IntLit(0)
            },
    )
}

pub open spec fn signature(f: FunctionView) -> SigView {
    SigView { params: f.params.map_values(|p: ParamView| p.ty), ret: f.return_type }
}

/// The first pass: `fs[i..]` added to `sigs` in order; a name already in
/// the table is an error.
pub open spec fn register_from(sigs: Map<Seq<char>, SigView>, fs: Seq<FunctionView>, i: int) -> Result<
    Map<Seq<char>, SigView>,
    TypeErrorView,
>
    decreases fs.len() - i,
{
    if i < 0 || i >= fs.len() {
        Ok(sigs)
    } else if sigs.contains_key(fs[i].name) {
        Err(TypeErrorView::DuplicateFunction(fs[i].name))
    } else {
        register_from(sigs.insert(fs[i].name, signature(fs[i])), fs, i + 1)
    }
}

/// The table the first pass leaves: `fs[i..]` added to `sigs` in order,
/// up to (not including) the first name already in the table.
pub open spec fn registered(sigs: Map<Seq<char>, SigView>, fs: Seq<FunctionView>, i: int) -> Map<
    Seq<char>,
    SigView,
>
    decreases fs.len() - i,
{
    if i < 0 || i >= fs.len() || sigs.contains_key(fs[i].name) {
        sigs
    } else {
        registered(sigs.insert(fs[i].name, signature(fs[i])), fs, i + 1)
    }
}

proof fn lemma_registered(sigs: Map<Seq<char>, SigView>, fs: Seq<FunctionView>, i: int)
    ensures
        register_from(sigs, fs, i) is Ok ==> register_from(sigs, fs, i) == Ok::<
            Map<Seq<char>, SigView>,
            TypeErrorView,
        >(registered(sigs, fs, i)),
    decreases fs.len() - i,
{
    if 0 <= i < fs.len() && !sigs.contains_key(fs[i].name) {
        lemma_registered(sigs.insert(fs[i].name, signature(fs[i])), fs, i + 1);
    }
}

/// The second pass: the bodies of `fs[i..]`, in order.
pub open spec fn check_from(sigs: Map<Seq<char>, SigView>, fs: Seq<FunctionView>, i: int) -> Result<
    (),
    TypeErrorView,
>
    decreases fs.len() - i,
{
    if i < 0 || i >= fs.len() {
        Ok(())
    } else {
        match function_check(sigs, fs[i]) {
            Err(err) => Err(err),
            Ok(_) => check_from(sigs, fs, i + 1),
        }
    }
}

/// Both passes over `fs`, starting from the table `sigs`.
pub open spec fn program_check_with(sigs: Map<Seq<char>, SigView>, fs: Seq<FunctionView>) -> Result<
    (),
    TypeErrorView,
> {
    match register_from(sigs, fs, 0) {
        Err(err) => Err(err),
        Ok(all) => check_from(all, fs, 0),
    }
}

/// Whether a program (its functions in order) is well typed, or its first
/// type error.
pub open spec fn program_check(fs: Seq<FunctionView>) -> Result<(), TypeErrorView> {
    program_check_with(builtin_sigs(), fs)
}

// ---------------------------------------------------------------------
// Name tables
// ---------------------------------------------------------------------

/// The bindings of a list of named entries, a later entry overriding an
/// earlier one of the same name.
pub open spec fn entries_map<V>(s: Seq<(String, V)>) -> Map<Seq<char>, V>
    decreases s.len(),
{
    if s.len() == 0 {
        Map::empty()
    } else {
        entries_map(s.drop_last()).insert(s.last().0@, s.last().1)
    }
}

proof fn lemma_entries_map_prefix<V>(s: Seq<(String, V)>, j: int, k: Seq<char>)
    requires
        0 <= j <= s.len(),
        forall|l: int| j <= l < s.len() ==> #[trigger] s[l].0@ != k,
    ensures
        entries_map(s).contains_key(k) == entries_map(s.take(j)).contains_key(k),
        entries_map(s).contains_key(k) ==> entries_map(s)[k] == entries_map(s.take(j))[k],
    decreases s.len() - j,
{
    if j == s.len() {
        assert(s.take(j) =~= s);
    } else {
        assert(s.drop_last().take(j) =~= s.take(j));
        assert(s.last().0@ != k);
        lemma_entries_map_prefix(s.drop_last(), j, k);
    }
}

proof fn lemma_entries_map_at<V>(s: Seq<(String, V)>, j: int)
    requires
        0 <= j < s.len(),
        forall|l: int| j < l < s.len() ==> #[trigger] s[l].0@ != s[j].0@,
    ensures
        entries_map(s).contains_key(s[j].0@),
        entries_map(s)[s[j].0@] == s[j].1,
{
    lemma_entries_map_prefix(s, j + 1, s[j].0@);
    assert(s.take(j + 1).drop_last() =~= s.take(j));
}

/// The position of the last entry named `name`.
fn find_last<V>(entries: &Vec<(String, V)>, name: &String) -> (r: Option<usize>)
    ensures
        match r {
            None => !entries_map(entries@).contains_key(name@),
            Some(j) => {
                &&& j < entries@.len()
                &&& entries@[j as int].0@ == name@
                &&& entries_map(entries@).contains_key(name@)
                &&& entries_map(entries@)[name@] == entries@[j as int].1
            },
        },
{
    let mut j = entries.len();
    while j > 0
        invariant
            j <= entries@.len(),
            forall|l: int| j <= l < entries@.len() ==> #[trigger] entries@[l].0@ != name@,
        decreases j,
    {
        j = j - 1;
        if entries[j].0 == *name {
            proof {
                lemma_entries_map_at(entries@, j as int);
            }
            return Some(j);
        }
    }
    proof {
        lemma_entries_map_prefix(entries@, 0, name@);
        assert(entries@.take(0) =~= Seq::<(String, V)>::empty());
    }
    None
}

// ---------------------------------------------------------------------
// The checker
// ---------------------------------------------------------------------

struct FunctionSig {
    params: Vec<Type>,
    return_type: Type,
}

spec fn sig_view(s: FunctionSig) -> SigView {
    SigView { params: s.params@, ret: s.return_type }
}

pub struct TypeChecker {
    functions: Vec<(String, FunctionSig)>,
    /// Variable scopes, innermost last.
    scopes: Vec<Vec<(String, VarInfo)>>,
    /// The return type of the function being checked.
    current_fn_return: Type,
}

/// A stack of scopes pushed `stmt_check` by `stmt_check` keeps its length
/// and all but its innermost scope.
proof fn lemma_stmt_check_frame(
    sigs: Map<Seq<char>, SigView>,
    scopes: TypeScopes,
    ret: Type,
    s: StmtView,
)
    requires
        scopes.len() >= 1,
        stmt_check(sigs, scopes, ret, s) is Ok,
    ensures
        ({
            let next = stmt_check(sigs, scopes, ret, s)->Ok_0;
            next.len() == scopes.len() && next.drop_last() == scopes.drop_last()
        }),
{
    let next = stmt_check(sigs, scopes, ret, s)->Ok_0;
    if s is Let {
        assert(next.drop_last() =~= scopes.drop_last());
    }
}

impl TypeChecker {
    /// The function table: name to signature.
    pub closed spec fn sigs(&self) -> Map<Seq<char>, SigView> {
        entries_map(self.functions@).map_values(|s: FunctionSig| sig_view(s))
    }

    closed spec fn scopes_model(&self) -> TypeScopes {
        Seq::new(self.scopes@.len(), |i: int| entries_map(self.scopes@[i]@))
    }

    pub fn new() -> (r: Self)
        ensures
            r.sigs() == builtin_sigs(),
    {
        // Seeded with the builtins' signatures, so a call of `print` is
        // checked like any other and a program cannot define one again.
        let table = builtin_table();
        let mut functions: Vec<(String, FunctionSig)> = Vec::new();
        let mut i: usize = 0;
        while i < table.len()
            invariant
                i <= table@.len(),
                functions@.len() == i,
                forall|k: int| 0 <= k < i ==> (#[trigger] functions@[k]).0@ == table@[k].name@,
                forall|k: int| 0 <= k < i ==> sig_view((#[trigger] functions@[k]).1) == (SigView {
                    params: table@[k].params@,
                    ret: Type::Unit,
                }),
                forall|k: int|
                    0 <= k < table@.len() ==> {
                        &&& builtin_params((#[trigger] table@[k]).name@) == Some(table@[k].params@)
                        &&& table@[k].ret == Type::Unit
                    },
                forall|a: int, b: int|
                    0 <= a < b < table@.len() ==> (#[trigger] table@[a]).name@ != (#[trigger] table@[b]).name@,
            decreases table@.len() - i,
        {
            let b = &table[i];
            let mut params: Vec<Type> = Vec::new();
            let mut k: usize = 0;
            while k < b.params.len()
                invariant
                    k <= b.params@.len(),
                    params@ == b.params@.take(k as int),
                decreases b.params@.len() - k,
            {
                params.push(b.params[k]);
                k = k + 1;
                proof {
                    assert(params@ =~= b.params@.take(k as int));
                }
            }
            proof {
                assert(params@ =~= b.params@);
            }
            functions.push((b.name.to_owned(), FunctionSig { params, return_type: b.ret }));
            i = i + 1;
        }
        let r = TypeChecker { functions, scopes: Vec::new(), current_fn_return: Type::Unit };
        proof {
            assert forall|name: Seq<char>| #[trigger] builtin_sigs().contains_key(name) implies r.sigs().contains_key(name) && r.sigs()[name] == builtin_sigs()[name] by {
                let k = choose|k: int| 0 <= k < table@.len() && (#[trigger] table@[k]).name@ == name;
                lemma_entries_map_at(functions@, k);
            }
            assert forall|name: Seq<char>| #[trigger] r.sigs().contains_key(name) implies builtin_sigs().contains_key(name) by {
                lemma_entries_map_has(functions@, name);
            }
            assert(r.sigs() =~= builtin_sigs());
        }
        r
    }
}

/// A bound name is the name of some entry.
proof fn lemma_entries_map_has<V>(s: Seq<(String, V)>, k: Seq<char>)
    requires
        entries_map(s).contains_key(k),
    ensures
        exists|j: int| 0 <= j < s.len() && (#[trigger] s[j]).0@ == k,
    decreases s.len(),
{
    if s.last().0@ != k {
        lemma_entries_map_has(s.drop_last(), k);
        let j = choose|j: int| 0 <= j < s.drop_last().len() && (#[trigger] s.drop_last()[j]).0@ == k;
        assert(s[j] == s.drop_last()[j]);
    } else {
        assert(s[s.len() - 1].0@ == k);
    }
}

impl TypeChecker {
    fn push_scope(&mut self)
        ensures
            final(self).scopes_model() =~= old(self).scopes_model().push(Map::empty()),
            final(self).functions == old(self).functions,
            final(self).current_fn_return == old(self).current_fn_return,
    {
        self.scopes.push(Vec::new());
    }

    fn pop_scope(&mut self)
        requires
            old(self).scopes_model().len() >= 1,
        ensures
            final(self).scopes_model() =~= old(self).scopes_model().drop_last(),
            final(self).functions == old(self).functions,
            final(self).current_fn_return == old(self).current_fn_return,
    {
        self.scopes.pop();
    }

    /// Binds `name` in the innermost scope. Shadowing is legal, so this
    /// replaces a binding of the same name there.
    fn declare(&mut self, name: String, ty: Type, mutable: bool)
        requires
            old(self).scopes_model().len() >= 1,
        ensures
            final(self).scopes_model() =~= declare_info(
                old(self).scopes_model(),
                name@,
                VarInfo { ty, mutable },
            ),
            final(self).functions == old(self).functions,
            final(self).current_fn_return == old(self).current_fn_return,
    {
        let last = self.scopes.len() - 1;
        let mut scope = Vec::new();
        self.scopes.set_and_swap(last, &mut scope);
        let ghost before = scope@;
        scope.push((name, VarInfo { ty, mutable }));
        proof {
            assert(scope@.drop_last() =~= before);
        }
        self.scopes.set_and_swap(last, &mut scope);
    }

    /// The innermost binding of `name`.
    fn lookup(&self, name: &String) -> (r: Option<VarInfo>)
        ensures
            r == lookup_info(self.scopes_model(), name@),
    {
        let ghost model = self.scopes_model();
        let mut i = self.scopes.len();
        proof {
            assert(model.take(i as int) =~= model);
        }
        while i > 0
            invariant
                i <= self.scopes@.len(),
                model == self.scopes_model(),
                lookup_info(model, name@) == lookup_info(model.take(i as int), name@),
            decreases i,
        {
            i = i - 1;
            proof {
                let prefix = model.take(i + 1);
                assert(prefix.drop_last() =~= model.take(i as int));
                assert(prefix.last() == entries_map(self.scopes@[i as int]@));
            }
            match find_last(&self.scopes[i], name) {
                Some(j) => {
                    return Some(self.scopes[i][j].1);
                },
                None => {},
            }
        }
        None
    }

    /// The position of `name` in the function table.
    fn find_function(&self, name: &String) -> (r: Option<usize>)
        ensures
            match r {
                None => !self.sigs().contains_key(name@),
                Some(j) => j < self.functions@.len() && self.sigs().contains_key(name@)
                    && self.sigs()[name@] == sig_view(self.functions@[j as int].1),
            },
    {
        find_last(&self.functions, name)
    }

    /// A copy of the parameter types of the `j`th function.
    fn param_types(&self, j: usize) -> (r: Vec<Type>)
        requires
            j < self.functions@.len(),
        ensures
            r@ == self.functions@[j as int].1.params@,
    {
        let src = &self.functions[j].1.params;
        let mut out: Vec<Type> = Vec::new();
        let mut k: usize = 0;
        while k < src.len()
            invariant
                k <= src@.len(),
                out@ == src@.take(k as int),
            decreases src@.len() - k,
        {
            out.push(src[k]);
            k = k + 1;
            proof {
                assert(out@ =~= src@.take(k as int));
            }
        }
        proof {
            assert(out@ =~= src@);
        }
        out
    }
}

impl TypeChecker {
    #[verifier::rlimit(60)]
    #[verifier::spinoff_prover]
    fn check_expr(&mut self, expr: &Expr) -> (r: Result<Type, TypeError>)
        ensures
            final(self).functions == old(self).functions,
            final(self).current_fn_return == old(self).current_fn_return,
            match r {
                Ok(t) => {
                    &&& expr_type(
                        old(self).sigs(),
                        old(self).scopes_model(),
                        old(self).current_fn_return,
                        expr_view(*expr),
                    ) == Ok::<Type, TypeErrorView>(t)
                    &&& final(self).scopes_model() == old(self).scopes_model()
                },
                Err(e) => expr_type(
                    old(self).sigs(),
                    old(self).scopes_model(),
                    old(self).current_fn_return,
                    expr_view(*expr),
                ) == Err::<Type, TypeErrorView>(e@),
            },
        decreases expr,
    {
        match expr {
            Expr::IntLit(_) => Ok(Type::I32),
            Expr::BoolLit(_) => Ok(Type::Bool),
            Expr::Ident(name) => match self.lookup(name) {
                Some(info) => Ok(info.ty),
                None => Err(TypeError::UndefinedVariable(name.clone())),
            },
            Expr::Unary { op, expr: inner } => {
                let found = match self.check_expr(inner) {
                    Ok(t) => t,
                    Err(e) => {
                        return Err(e);
                    },
                };
                match op {
                    UnOp::Neg => if found == Type::I32 {
                        Ok(Type::I32)
                    } else {
                        Err(TypeError::UnaryOpTypeError { op: *op, found })
                    },
                    UnOp::Not => if found == Type::Bool {
                        Ok(Type::Bool)
                    } else {
                        Err(TypeError::UnaryOpTypeError { op: *op, found })
                    },
                }
            },
            Expr::Binary { op, lhs, rhs } => {
                let lhs_ty = match self.check_expr(lhs) {
                    Ok(t) => t,
                    Err(e) => {
                        return Err(e);
                    },
                };
                let rhs_ty = match self.check_expr(rhs) {
                    Ok(t) => t,
                    Err(e) => {
                        return Err(e);
                    },
                };
                self.check_binary(*op, lhs_ty, rhs_ty)
            },
            Expr::Assign { name, value } => {
                let found = match self.check_expr(value) {
                    Ok(t) => t,
                    Err(e) => {
                        return Err(e);
                    },
                };
                let info = match self.lookup(name) {
                    Some(i) => i,
                    None => {
                        return Err(TypeError::UndefinedVariable(name.clone()));
                    },
                };
                if !info.mutable {
                    return Err(TypeError::AssignToImmutable(name.clone()));
                }
                if info.ty != found {
                    return Err(
                        TypeError::AssignTypeMismatch { name: name.clone(), expected: info.ty, found },
                    );
                }
                // As in Rust, an assignment expression has type `()`.
                Ok(Type::Unit)
            },
            Expr::Call { callee, args } => {
                let j = match self.find_function(callee) {
                    Some(j) => j,
                    None => {
                        return Err(TypeError::UndefinedFunction(callee.clone()));
                    },
                };
                let params = self.param_types(j);
                let ret = self.functions[j].1.return_type;
                if args.len() != params.len() {
                    return Err(
                        TypeError::ArgCountMismatch {
                            func: callee.clone(),
                            expected: params.len(),
                            found: args.len(),
                        },
                    );
                }
                proof {
                    assert(args_view(args@) =~= expr_view(*expr)->Call_args);
                }
                match self.check_args(callee, args, &params) {
                    Ok(()) => Ok(ret),
                    Err(e) => Err(e),
                }
            },
            Expr::If { cond, then_branch, else_branch } => {
                let cond_ty = match self.check_expr(cond) {
                    Ok(t) => t,
                    Err(e) => {
                        return Err(e);
                    },
                };
                if cond_ty != Type::Bool {
                    return Err(TypeError::ConditionNotBool { found: cond_ty });
                }
                let then_ty = match self.check_block(then_branch) {
                    Ok(t) => t,
                    Err(e) => {
                        return Err(e);
                    },
                };
                match else_branch {
                    None => {
                        // No `else`: the missing branch is `()`, so the
                        // `then` branch must be `()` too.
                        if then_ty != Type::Unit {
                            return Err(
                                TypeError::IfBranchMismatch { then_ty, else_ty: Type::Unit },
                            );
                        }
                        Ok(Type::Unit)
                    },
                    Some(eb) => {
                        let else_ty = match self.check_else_branch(eb) {
                            Ok(t) => t,
                            Err(e) => {
                                return Err(e);
                            },
                        };
                        if then_ty != else_ty {
                            return Err(TypeError::IfBranchMismatch { then_ty, else_ty });
                        }
                        Ok(then_ty)
                    },
                }
            },
            Expr::Block(block) => self.check_block(block),
        }
    }

    /// Checks call arguments left to right against `params`.
    fn check_args(&mut self, callee: &String, args: &Vec<Expr>, params: &Vec<Type>) -> (r: Result<(), TypeError>)
        requires
            args@.len() == params@.len(),
        ensures
            final(self).functions == old(self).functions,
            final(self).current_fn_return == old(self).current_fn_return,
            match r {
                Ok(_) => {
                    &&& args_check(
                        old(self).sigs(),
                        old(self).scopes_model(),
                        old(self).current_fn_return,
                        callee@,
                        args_view(args@),
                        params@,
                        0,
                    ) == Ok::<(), TypeErrorView>(())
                    &&& final(self).scopes_model() == old(self).scopes_model()
                },
                Err(e) => args_check(
                    old(self).sigs(),
                    old(self).scopes_model(),
                    old(self).current_fn_return,
                    callee@,
                    args_view(args@),
                    params@,
                    0,
                ) == Err::<(), TypeErrorView>(e@),
            },
        decreases args,
    {
        let ghost sigs = old(self).sigs();
        let ghost sc = old(self).scopes_model();
        let ghost rt = old(self).current_fn_return;
        let ghost av = args_view(args@);
        let n = args.len();
        let mut i: usize = 0;
        proof {
            assert(av.subrange(0, n as int) =~= av);
            assert(params@.subrange(0, n as int) =~= params@);
        }
        while i < n
            invariant
                n == args@.len(),
                n == params@.len(),
                av == args_view(args@),
                i <= n,
                sigs == old(self).sigs(),
                sc == old(self).scopes_model(),
                rt == old(self).current_fn_return,
                sigs == self.sigs(),
                sc == self.scopes_model(),
                rt == self.current_fn_return,
                self.functions == old(self).functions,
                args_check(sigs, sc, rt, callee@, av, params@, 0) == args_check(
                    sigs,
                    sc,
                    rt,
                    callee@,
                    av.subrange(i as int, n as int),
                    params@.subrange(i as int, n as int),
                    i as nat,
                ),
            decreases n - i,
        {
            proof {
                assert(decreases_to!(args => args@));
                assert(decreases_to!(args@ => args@[i as int]));
            }
            let found = match self.check_expr(&args[i]) {
                Ok(t) => t,
                Err(e) => {
                    proof {
                        let rest = av.subrange(i as int, n as int);
                        assert(rest[0] == av[i as int]);
                    }
                    return Err(e);
                },
            };
            proof {
                let rest = av.subrange(i as int, n as int);
                assert(rest[0] == av[i as int]);
                assert(rest.subrange(1, rest.len() as int) =~= av.subrange(i + 1, n as int));
                let ps = params@.subrange(i as int, n as int);
                assert(ps[0] == params@[i as int]);
                assert(ps.subrange(1, ps.len() as int) =~= params@.subrange(i + 1, n as int));
            }
            if found != params[i] {
                return Err(
                    TypeError::ArgTypeMismatch {
                        func: callee.clone(),
                        index: i,
                        expected: params[i],
                        found,
                    },
                );
            }
            i = i + 1;
        }
        proof {
            assert(av.subrange(n as int, n as int) =~= Seq::<ExprView>::empty());
        }
        Ok(())
    }

    fn check_else_branch(&mut self, branch: &ElseBranch) -> (r: Result<Type, TypeError>)
        ensures
            final(self).functions == old(self).functions,
            final(self).current_fn_return == old(self).current_fn_return,
            match r {
                Ok(t) => {
                    &&& else_type(
                        old(self).sigs(),
                        old(self).scopes_model(),
                        old(self).current_fn_return,
                        else_view(*branch),
                    ) == Ok::<Type, TypeErrorView>(t)
                    &&& final(self).scopes_model() == old(self).scopes_model()
                },
                Err(e) => else_type(
                    old(self).sigs(),
                    old(self).scopes_model(),
                    old(self).current_fn_return,
                    else_view(*branch),
                ) == Err::<Type, TypeErrorView>(e@),
            },
        decreases branch,
    {
        match branch {
            ElseBranch::Block(block) => self.check_block(block),
            ElseBranch::If(inner) => self.check_expr(inner),
        }
    }

    fn check_binary(&self, op: BinOp, lhs: Type, rhs: Type) -> (r: Result<Type, TypeError>)
        ensures
            match r {
                Ok(t) => binary_type(op, lhs, rhs) == Ok::<Type, TypeErrorView>(t),
                Err(e) => binary_type(op, lhs, rhs) == Err::<Type, TypeErrorView>(e@),
            },
    {
        let err = TypeError::BinaryOpTypeError { op, lhs, rhs };
        match op {
            BinOp::Add | BinOp::Sub | BinOp::Mul | BinOp::Div | BinOp::Mod => {
                if lhs == Type::I32 && rhs == Type::I32 {
                    Ok(Type::I32)
                } else {
                    Err(err)
                }
            },
            BinOp::Lt | BinOp::Gt | BinOp::LtEq | BinOp::GtEq => {
                if lhs == Type::I32 && rhs == Type::I32 {
                    Ok(Type::Bool)
                } else {
                    Err(err)
                }
            },
            BinOp::Eq | BinOp::NotEq => {
                // `()` == `()` would be vacuously true, so it is refused.
                if lhs == rhs && lhs != Type::Unit {
                    Ok(Type::Bool)
                } else {
                    Err(err)
                }
            },
            BinOp::And | BinOp::Or => {
                if lhs == Type::Bool && rhs == Type::Bool {
                    Ok(Type::Bool)
                } else {
                    Err(err)
                }
            },
        }
    }

    fn check_block(&mut self, block: &Block) -> (r: Result<Type, TypeError>)
        ensures
            final(self).functions == old(self).functions,
            final(self).current_fn_return == old(self).current_fn_return,
            match r {
                Ok(t) => {
                    &&& block_type(
                        old(self).sigs(),
                        old(self).scopes_model(),
                        old(self).current_fn_return,
                        block_view(*block),
                    ) == Ok::<Type, TypeErrorView>(t)
                    &&& final(self).scopes_model() == old(self).scopes_model()
                },
                Err(e) => block_type(
                    old(self).sigs(),
                    old(self).scopes_model(),
                    old(self).current_fn_return,
                    block_view(*block),
                ) == Err::<Type, TypeErrorView>(e@),
            },
        decreases block,
    {
        let ghost sigs = old(self).sigs();
        let ghost sc = old(self).scopes_model();
        let ghost rt = old(self).current_fn_return;
        let ghost ss = block_view(*block).stmts;
        self.push_scope();
        let n = block.stmts.len();
        let mut i: usize = 0;
        proof {
            assert(ss.subrange(0, n as int) =~= ss);
        }
        while i < n
            invariant
                n == block.stmts@.len(),
                ss.len() == n,
                forall|k: int| 0 <= k < n ==> ss[k] == stmt_view(#[trigger] block.stmts@[k]),
                i <= n,
                sigs == old(self).sigs(),
                sc == old(self).scopes_model(),
                rt == old(self).current_fn_return,
                sigs == self.sigs(),
                rt == self.current_fn_return,
                self.functions == old(self).functions,
                self.scopes_model().len() == sc.len() + 1,
                self.scopes_model().drop_last() == sc,
                stmts_check(sigs, sc.push(Map::empty()), rt, ss) == stmts_check(
                    sigs,
                    self.scopes_model(),
                    rt,
                    ss.subrange(i as int, n as int),
                ),
            decreases n - i,
        {
            let ghost before = self.scopes_model();
            match self.check_stmt(&block.stmts[i]) {
                Ok(()) => {},
                Err(e) => {
                    proof {
                        let rest = ss.subrange(i as int, n as int);
                        assert(rest[0] == ss[i as int]);
                        assert(stmts_check(sigs, before, rt, rest) == Err::<TypeScopes, TypeErrorView>(e@));
                        assert(stmts_check(sigs, sc.push(Map::empty()), rt, ss) == Err::<TypeScopes, TypeErrorView>(e@));
                        let bv = block_view(*block);
                        assert(bv.stmts == ss);
                        assert(block_type(sigs, sc, rt, bv) == Err::<Type, TypeErrorView>(e@));
                    }
                    return Err(e);
                },
            }
            proof {
                let rest = ss.subrange(i as int, n as int);
                assert(rest[0] == ss[i as int]);
                assert(rest.subrange(1, rest.len() as int) =~= ss.subrange(i + 1, n as int));
                lemma_stmt_check_frame(sigs, before, rt, ss[i as int]);
            }
            i = i + 1;
        }
        proof {
            assert(ss.subrange(n as int, n as int) =~= Seq::<StmtView>::empty());
        }
        let result = match &block.tail {
            Some(expr) => match self.check_expr(expr) {
                Ok(t) => t,
                Err(e) => {
                    return Err(e);
                },
            },
            None => Type::Unit,
        };
        self.pop_scope();
        Ok(result)
    }

    fn check_stmt(&mut self, stmt: &Stmt) -> (r: Result<(), TypeError>)
        requires
            old(self).scopes_model().len() >= 1,
        ensures
            final(self).functions == old(self).functions,
            final(self).current_fn_return == old(self).current_fn_return,
            match r {
                Ok(_) => stmt_check(
                    old(self).sigs(),
                    old(self).scopes_model(),
                    old(self).current_fn_return,
                    stmt_view(*stmt),
                ) == Ok::<TypeScopes, TypeErrorView>(final(self).scopes_model()),
                Err(e) => stmt_check(
                    old(self).sigs(),
                    old(self).scopes_model(),
                    old(self).current_fn_return,
                    stmt_view(*stmt),
                ) == Err::<TypeScopes, TypeErrorView>(e@),
            },
        decreases stmt,
    {
        match stmt {
            Stmt::Let { name, mutable, ty, value } => {
                let found = match self.check_expr(value) {
                    Ok(t) => t,
                    Err(e) => {
                        return Err(e);
                    },
                };
                let bound_ty = match ty {
                    Some(declared) => {
                        if *declared != found {
                            return Err(
                                TypeError::LetTypeMismatch {
                                    name: name.clone(),
                                    declared: *declared,
                                    found,
                                },
                            );
                        }
                        *declared
                    },
                    None => found,
                };
                self.declare(name.clone(), bound_ty, *mutable);
                Ok(())
            },
            Stmt::Return(value) => {
                let found = match value {
                    Some(expr) => match self.check_expr(expr) {
                        Ok(t) => t,
                        Err(e) => {
                            return Err(e);
                        },
                    },
                    None => Type::Unit,
                };
                if found != self.current_fn_return {
                    return Err(
                        TypeError::ReturnTypeMismatch { expected: self.current_fn_return, found },
                    );
                }
                Ok(())
            },
            Stmt::While { cond, body } => {
                let cond_ty = match self.check_expr(cond) {
                    Ok(t) => t,
                    Err(e) => {
                        return Err(e);
                    },
                };
                if cond_ty != Type::Bool {
                    return Err(TypeError::ConditionNotBool { found: cond_ty });
                }
                // A loop has no value; only whether its body checks matters.
                match self.check_block(body) {
                    Ok(_) => Ok(()),
                    Err(e) => Err(e),
                }
            },
            Stmt::Expr(expr) => match self.check_expr(expr) {
                Ok(_) => Ok(()),
                Err(e) => Err(e),
            },
        }
    }
}

impl TypeChecker {
    /// Checks a whole program: every signature first, then every body,
    /// in the order of the program's items.
    pub fn check_program(&mut self, program: &Program) -> (r: Result<(), TypeError>)
        ensures
            match r {
                Ok(_) => program_check_with(old(self).sigs(), program_view(*program)) == Ok::<
                    (),
                    TypeErrorView,
                >(()),
                Err(e) => program_check_with(old(self).sigs(), program_view(*program)) == Err::<
                    (),
                    TypeErrorView,
                >(e@),
            },
            // The signatures registered stay in the table: checking the same
            // program again reports its first function as a duplicate.
            final(self).sigs() == registered(old(self).sigs(), program_view(*program), 0),
            r is Ok ==> register_from(old(self).sigs(), program_view(*program), 0) == Ok::<
                Map<Seq<char>, SigView>,
                TypeErrorView,
            >(final(self).sigs()),
    {
        let ghost fs = program_view(*program);
        proof {
            lemma_registered(old(self).sigs(), fs, 0);
        }
        let ghost sigs0 = old(self).sigs();
        let n = program.items.len();
        let mut i: usize = 0;
        while i < n
            invariant
                n == program.items@.len(),
                fs == program_view(*program),
                fs.len() == n,
                i <= n,
                sigs0 == old(self).sigs(),
                register_from(sigs0, fs, 0) == register_from(self.sigs(), fs, i as int),
                registered(sigs0, fs, 0) == registered(self.sigs(), fs, i as int),
            decreases n - i,
        {
            match &program.items[i] {
                Item::Function(f) => {
                    proof {
                        assert(fs[i as int] == function_view(*f));
                    }
                    match self.register_function(f) {
                        Ok(()) => {},
                        Err(e) => {
                            return Err(e);
                        },
                    }
                },
            }
            i = i + 1;
        }
        let ghost all = self.sigs();
        let mut i: usize = 0;
        while i < n
            invariant
                n == program.items@.len(),
                fs == program_view(*program),
                fs.len() == n,
                i <= n,
                sigs0 == old(self).sigs(),
                register_from(sigs0, fs, 0) == Ok::<Map<Seq<char>, SigView>, TypeErrorView>(all),
                registered(sigs0, fs, 0) == all,
                all == self.sigs(),
                check_from(all, fs, 0) == check_from(all, fs, i as int),
            decreases n - i,
        {
            match &program.items[i] {
                Item::Function(f) => {
                    proof {
                        assert(fs[i as int] == function_view(*f));
                    }
                    match self.check_function(f) {
                        Ok(()) => {},
                        Err(e) => {
                            return Err(e);
                        },
                    }
                },
            }
            i = i + 1;
        }
        Ok(())
    }

    /// Adds `f`'s signature to the table; a name already there is an error.
    fn register_function(&mut self, f: &FunctionDecl) -> (r: Result<(), TypeError>)
        ensures
            match r {
                Ok(_) => {
                    &&& !old(self).sigs().contains_key(f.name@)
                    &&& final(self).sigs() == old(self).sigs().insert(
                        f.name@,
                        signature(function_view(*f)),
                    )
                },
                Err(e) => {
                    &&& old(self).sigs().contains_key(f.name@)
                    &&& e@ == TypeErrorView::DuplicateFunction(f.name@)
                    &&& final(self).sigs() == old(self).sigs()
                },
            },
    {
        if self.find_function(&f.name).is_some() {
            return Err(TypeError::DuplicateFunction(f.name.clone()));
        }
        let ghost pv = function_view(*f).params;
        let mut params: Vec<Type> = Vec::new();
        let n = f.params.len();
        let mut k: usize = 0;
        while k < n
            invariant
                n == f.params@.len(),
                pv == function_view(*f).params,
                k <= n,
                params@ == pv.take(k as int).map_values(|p: ParamView| p.ty),
            decreases n - k,
        {
            params.push(f.params[k].ty);
            k = k + 1;
            proof {
                assert(params@ =~= pv.take(k as int).map_values(|p: ParamView| p.ty));
            }
        }
        proof {
            assert(pv.take(n as int) =~= pv);
        }
        let ghost before = self.functions@;
        self.functions.push((f.name.clone(), FunctionSig { params, return_type: f.return_type }));
        proof {
            assert(self.functions@.drop_last() =~= before);
            assert(self.sigs() =~= old(self).sigs().insert(f.name@, signature(function_view(*f))));
        }
        Ok(())
    }

    /// Checks one function body in a fresh scope holding its parameters.
    fn check_function(&mut self, f: &FunctionDecl) -> (r: Result<(), TypeError>)
        ensures
            final(self).functions == old(self).functions,
            match r {
                Ok(_) => function_check(old(self).sigs(), function_view(*f)) == Ok::<
                    (),
                    TypeErrorView,
                >(()),
                Err(e) => function_check(old(self).sigs(), function_view(*f)) == Err::<
                    (),
                    TypeErrorView,
                >(e@),
            },
    {
        let ghost pv = function_view(*f).params;
        // Whatever scopes are left over, a function starts from none.
        self.scopes = Vec::new();
        self.push_scope();
        let n = f.params.len();
        let mut i: usize = 0;
        proof {
            assert(pv.take(0) =~= Seq::<ParamView>::empty());
        }
        while i < n
            invariant
                n == f.params@.len(),
                pv == function_view(*f).params,
                i <= n,
                self.functions == old(self).functions,
                self.scopes_model() == seq![params_scope(pv.take(i as int))],
            decreases n - i,
        {
            let p = &f.params[i];
            // Parameters take no `mut`: each is an immutable binding.
            self.declare(p.name.clone(), p.ty, false);
            proof {
                assert(pv.take(i + 1).drop_last() =~= pv.take(i as int));
                assert(pv.take(i + 1).last() == param_view(*p));
            }
            i = i + 1;
        }
        proof {
            assert(pv.take(n as int) =~= pv);
        }
        let saved_return = self.current_fn_return;
        self.current_fn_return = f.return_type;
        let body_ty = match self.check_block(&f.body) {
            Ok(t) => t,
            Err(e) => {
                return Err(e);
            },
        };
        self.current_fn_return = saved_return;
        if body_ty != f.return_type {
            return Err(
                TypeError::FunctionBodyTypeMismatch {
                    func: f.name.clone(),
                    expected: f.return_type,
                    found: body_ty,
                },
            );
        }
        self.pop_scope();
        Ok(())
    }
}

impl Default for TypeChecker {
    fn default() -> (r: Self)
        ensures
            r.sigs() == builtin_sigs(),
    {
        Self::new()
    }
}

// ---------------------------------------------------------------------
// Messages
// ---------------------------------------------------------------------

/// How `{:?}` shows a type.
pub open spec fn ty_name(t: Type) -> Seq<char> {
    match t {
        Type::I32 => "I32"@,
        Type::Bool => "Bool"@,
        Type::Unit => "Unit"@,
    }
}

pub open spec fn unop_name(op: UnOp) -> Seq<char> {
    match op {
        UnOp::Neg => "Neg"@,
        UnOp::Not => "Not"@,
    }
}

pub open spec fn binop_name(op: BinOp) -> Seq<char> {
    match op {
        BinOp::Add => "Add"@,
        BinOp::Sub => "Sub"@,
        BinOp::Mul => "Mul"@,
        BinOp::Div => "Div"@,
        BinOp::Mod => "Mod"@,
        BinOp::Eq => "Eq"@,
        BinOp::NotEq => "NotEq"@,
        BinOp::Lt => "Lt"@,
        BinOp::Gt => "Gt"@,
        BinOp::LtEq => "LtEq"@,
        BinOp::GtEq => "GtEq"@,
        BinOp::And => "And"@,
        BinOp::Or => "Or"@,
    }
}

/// Messages tell operators and types apart: no two operators, and no two
/// types, are shown by the same name.
pub proof fn names_are_distinct(o1: BinOp, o2: BinOp, u1: UnOp, u2: UnOp, t1: Type, t2: Type)
    ensures
        o1 != o2 ==> binop_name(o1) != binop_name(o2),
        u1 != u2 ==> unop_name(u1) != unop_name(u2),
        t1 != t2 ==> ty_name(t1) != ty_name(t2),
{
    reveal_strlit("I32");
    reveal_strlit("Bool");
    reveal_strlit("Unit");
    reveal_strlit("Neg");
    reveal_strlit("Not");
    reveal_strlit("Add");
    reveal_strlit("Sub");
    reveal_strlit("Mul");
    reveal_strlit("Div");
    reveal_strlit("Mod");
    reveal_strlit("Eq");
    reveal_strlit("NotEq");
    reveal_strlit("Lt");
    reveal_strlit("Gt");
    reveal_strlit("LtEq");
    reveal_strlit("GtEq");
    reveal_strlit("And");
    reveal_strlit("Or");
    if o1 != o2 {
        let (a, b) = (binop_name(o1), binop_name(o2));
        assert(a.len() != b.len() || a[0] != b[0] || a[1] != b[1] || (a.len() > 2 && a[2] != b[2])
            || (a.len() > 3 && a[3] != b[3]));
    }
    if t1 != t2 {
        assert(ty_name(t1)[0] != ty_name(t2)[0]);
    }
    if u1 != u2 {
        assert(unop_name(u1)[2] != unop_name(u2)[2]);
    }
}

/// The one-line description of a type error.
pub open spec fn type_error_text(e: TypeErrorView) -> Seq<char> {
    match e {
        TypeErrorView::DuplicateFunction(name) => "function `"@ + name + "` is defined more than once"@,
        TypeErrorView::UndefinedVariable(name) => "undefined variable `"@ + name + "`"@,
        TypeErrorView::UndefinedFunction(name) => "undefined function `"@ + name + "`"@,
        TypeErrorView::AssignToImmutable(name) => "cannot assign to immutable variable `"@ + name
            + "` (declare it `let mut`)"@,
        TypeErrorView::AssignTypeMismatch { name, expected, found } => "cannot assign value of type "@
            + ty_name(found) + " to `"@ + name + "` of type "@ + ty_name(expected),
        TypeErrorView::LetTypeMismatch { name, declared, found } => "`let "@ + name + ": "@
            + ty_name(declared) + "` initializer has type "@ + ty_name(found),
        TypeErrorView::ArgCountMismatch { func, expected, found } => "function `"@ + func
            + "` expects "@ + nat_digits(expected) + " argument(s), found "@ + nat_digits(found),
        TypeErrorView::ArgTypeMismatch { func, index, expected, found } => "function `"@ + func
            + "` argument "@ + nat_digits(index) + " expected "@ + ty_name(expected) + ", found "@
            + ty_name(found),
        TypeErrorView::ConditionNotBool { found } => "expected a `bool` condition, found "@
            + ty_name(found),
        TypeErrorView::IfBranchMismatch { then_ty, else_ty } => "`if` branches have incompatible types: "@
            + ty_name(then_ty) + " vs "@ + ty_name(else_ty),
        TypeErrorView::UnaryOpTypeError { op, found } => "operator "@ + unop_name(op)
            + " is not defined for type "@ + ty_name(found),
        TypeErrorView::BinaryOpTypeError { op, lhs, rhs } => "operator "@ + binop_name(op)
            + " is not defined for types "@ + ty_name(lhs) + " and "@ + ty_name(rhs),
        TypeErrorView::ReturnTypeMismatch { expected, found } => "expected return type "@
            + ty_name(expected) + ", found "@ + ty_name(found),
        TypeErrorView::FunctionBodyTypeMismatch { func, expected, found } => "function `"@ + func
            + "` declared to return "@ + ty_name(expected) + ", but its body evaluates to "@
            + ty_name(found),
    }
}

fn ty_name_str(t: Type) -> (r: &'static str)
    ensures
        r@ == ty_name(t),
{
    match t {
        Type::I32 => "I32",
        Type::Bool => "Bool",
        Type::Unit => "Unit",
    }
}

fn unop_name_str(op: UnOp) -> (r: &'static str)
    ensures
        r@ == unop_name(op),
{
    match op {
        UnOp::Neg => "Neg",
        UnOp::Not => "Not",
    }
}

fn binop_name_str(op: BinOp) -> (r: &'static str)
    ensures
        r@ == binop_name(op),
{
    match op {
        BinOp::Add => "Add",
        BinOp::Sub => "Sub",
        BinOp::Mul => "Mul",
        BinOp::Div => "Div",
        BinOp::Mod => "Mod",
        BinOp::Eq => "Eq",
        BinOp::NotEq => "NotEq",
        BinOp::Lt => "Lt",
        BinOp::Gt => "Gt",
        BinOp::LtEq => "LtEq",
        BinOp::GtEq => "GtEq",
        BinOp::And => "And",
        BinOp::Or => "Or",
    }
}

/// Appends the decimal numeral of a count or an index.
fn push_count(s: &mut String, n: usize)
    ensures
        final(s)@ == old(s)@ + nat_digits(n as nat),
{
    push_nat_digits(s, n as u64);
}

impl TypeError {
    /// The one-line description of the error.
    pub fn to_display_string(&self) -> (r: String)
        ensures
            r@ == type_error_text(self@),
    {
        match self {
            TypeError::DuplicateFunction(name) => {
                let mut s = String::from_str("function `");
                s.append(name.as_str());
                s.append("` is defined more than once");
                s
            },
            TypeError::UndefinedVariable(name) => {
                let mut s = String::from_str("undefined variable `");
                s.append(name.as_str());
                s.append("`");
                s
            },
            TypeError::UndefinedFunction(name) => {
                let mut s = String::from_str("undefined function `");
                s.append(name.as_str());
                s.append("`");
                s
            },
            TypeError::AssignToImmutable(name) => {
                let mut s = String::from_str("cannot assign to immutable variable `");
                s.append(name.as_str());
                s.append("` (declare it `let mut`)");
                s
            },
            TypeError::AssignTypeMismatch { name, expected, found } => {
                let mut s = String::from_str("cannot assign value of type ");
                s.append(ty_name_str(*found));
                s.append(" to `");
                s.append(name.as_str());
                s.append("` of type ");
                s.append(ty_name_str(*expected));
                s
            },
            TypeError::LetTypeMismatch { name, declared, found } => {
                let mut s = String::from_str("`let ");
                s.append(name.as_str());
                s.append(": ");
                s.append(ty_name_str(*declared));
                s.append("` initializer has type ");
                s.append(ty_name_str(*found));
                s
            },
            TypeError::ArgCountMismatch { func, expected, found } => {
                let mut s = String::from_str("function `");
                s.append(func.as_str());
                s.append("` expects ");
                push_count(&mut s, *expected);
                s.append(" argument(s), found ");
                push_count(&mut s, *found);
                s
            },
            TypeError::ArgTypeMismatch { func, index, expected, found } => {
                let mut s = String::from_str("function `");
                s.append(func.as_str());
                s.append("` argument ");
                push_count(&mut s, *index);
                s.append(" expected ");
                s.append(ty_name_str(*expected));
                s.append(", found ");
                s.append(ty_name_str(*found));
                s
            },
            TypeError::ConditionNotBool { found } => {
                let mut s = String::from_str("expected a `bool` condition, found ");
                s.append(ty_name_str(*found));
                s
            },
            TypeError::IfBranchMismatch { then_ty, else_ty } => {
                let mut s = String::from_str("`if` branches have incompatible types: ");
                s.append(ty_name_str(*then_ty));
                s.append(" vs ");
                s.append(ty_name_str(*else_ty));
                s
            },
            TypeError::UnaryOpTypeError { op, found } => {
                let mut s = String::from_str("operator ");
                s.append(unop_name_str(*op));
                s.append(" is not defined for type ");
                s.append(ty_name_str(*found));
                s
            },
            TypeError::BinaryOpTypeError { op, lhs, rhs } => {
                let mut s = String::from_str("operator ");
                s.append(binop_name_str(*op));
                s.append(" is not defined for types ");
                s.append(ty_name_str(*lhs));
                s.append(" and ");
                s.append(ty_name_str(*rhs));
                s
            },
            TypeError::ReturnTypeMismatch { expected, found } => {
                let mut s = String::from_str("expected return type ");
                s.append(ty_name_str(*expected));
                s.append(", found ");
                s.append(ty_name_str(*found));
                s
            },
            TypeError::FunctionBodyTypeMismatch { func, expected, found } => {
                let mut s = String::from_str("function `");
                s.append(func.as_str());
                s.append("` declared to return ");
                s.append(ty_name_str(*expected));
                s.append(", but its body evaluates to ");
                s.append(ty_name_str(*found));
                s
            },
        }
    }
}

// ---------------------------------------------------------------------
// Laws
// ---------------------------------------------------------------------

/// What the first pass builds: the starting table, plus each function's
/// signature under its name, and nothing else.
pub(crate) proof fn lemma_register(sigs: Map<Seq<char>, SigView>, fs: Seq<FunctionView>, i: int)
    requires
        0 <= i <= fs.len(),
        register_from(sigs, fs, i) is Ok,
    ensures
        ({
            let all = register_from(sigs, fs, i)->Ok_0;
            &&& forall|n: Seq<char>| #[trigger]
                sigs.contains_key(n) ==> all.contains_key(n) && all[n] == sigs[n]
            &&& forall|j: int|
                i <= j < fs.len() ==> all.contains_key((#[trigger] fs[j]).name) && all[fs[j].name]
                    == signature(fs[j])
            &&& forall|n: Seq<char>| #[trigger]
                all.contains_key(n) ==> sigs.contains_key(n) || exists|j: int|
                    i <= j < fs.len() && (#[trigger] fs[j]).name == n
        }),
    decreases fs.len() - i,
{
    if i < fs.len() {
        let next = sigs.insert(fs[i].name, signature(fs[i]));
        lemma_register(next, fs, i + 1);
        let all = register_from(sigs, fs, i)->Ok_0;
        assert(all == register_from(next, fs, i + 1)->Ok_0);
        assert forall|n: Seq<char>| #[trigger] sigs.contains_key(n) implies all.contains_key(n)
            && all[n] == sigs[n] by {
            assert(next.contains_key(n));
        }
        assert forall|j: int| i <= j < fs.len() implies all.contains_key((#[trigger] fs[j]).name)
            && all[fs[j].name] == signature(fs[j]) by {
            if j == i {
                assert(next.contains_key(fs[i].name));
            }
        }
        assert forall|n: Seq<char>| #[trigger] all.contains_key(n) implies sigs.contains_key(n)
            || exists|j: int| i <= j < fs.len() && (#[trigger] fs[j]).name == n by {
            if !sigs.contains_key(n) && n == fs[i].name {
                assert(fs[i].name == n);
            } else if !sigs.contains_key(n) {
                assert(!next.contains_key(n) || sigs.contains_key(n) || n == fs[i].name);
                let j = choose|j: int| i + 1 <= j < fs.len() && (#[trigger] fs[j]).name == n;
                assert(i <= j);
            }
        }
    }
}

pub(crate) proof fn lemma_check_from(sigs: Map<Seq<char>, SigView>, fs: Seq<FunctionView>, i: int)
    requires
        0 <= i <= fs.len(),
        check_from(sigs, fs, i) is Ok,
    ensures
        forall|j: int| i <= j < fs.len() ==> function_check(sigs, #[trigger] fs[j]) is Ok,
    decreases fs.len() - i,
{
    if i < fs.len() {
        lemma_check_from(sigs, fs, i + 1);
    }
}

/// `fs[i..]` can be added to `sigs`: no name is in the table already, and
/// no two share a name.
pub open spec fn fresh_names(sigs: Map<Seq<char>, SigView>, fs: Seq<FunctionView>, i: int) -> bool {
    &&& forall|j: int| i <= j < fs.len() ==> !sigs.contains_key(#[trigger] fs[j].name)
    &&& forall|j: int, k: int|
        i <= j < k < fs.len() ==> (#[trigger] fs[j]).name != (#[trigger] fs[k]).name
}

/// The first pass succeeds exactly when the names are fresh.
proof fn lemma_register_ok(sigs: Map<Seq<char>, SigView>, fs: Seq<FunctionView>, i: int)
    requires
        0 <= i <= fs.len(),
    ensures
        register_from(sigs, fs, i) is Ok <==> fresh_names(sigs, fs, i),
    decreases fs.len() - i,
{
    if i < fs.len() {
        let next = sigs.insert(fs[i].name, signature(fs[i]));
        lemma_register_ok(next, fs, i + 1);
        if fresh_names(sigs, fs, i) {
            assert forall|j: int| i + 1 <= j < fs.len() implies !next.contains_key(#[trigger] fs[j].name) by {
                assert(fs[i].name != fs[j].name);
            }
        }
        if !sigs.contains_key(fs[i].name) && fresh_names(next, fs, i + 1) {
            assert forall|j: int, k: int|
                i <= j < k < fs.len() implies (#[trigger] fs[j]).name != (#[trigger] fs[k]).name by {
                if j == i {
                    assert(!next.contains_key(fs[k].name));
                }
            }
        }
    }
}

/// The second pass succeeds exactly when every body checks.
proof fn lemma_check_from_ok(sigs: Map<Seq<char>, SigView>, fs: Seq<FunctionView>, i: int)
    requires
        0 <= i <= fs.len(),
    ensures
        check_from(sigs, fs, i) is Ok <==> forall|j: int|
            i <= j < fs.len() ==> function_check(sigs, #[trigger] fs[j]) is Ok,
    decreases fs.len() - i,
{
    if i < fs.len() {
        lemma_check_from_ok(sigs, fs, i + 1);
    }
}

/// Whether a program checks does not depend on the order of its
/// functions (so a body may call a function declared after it): `gs`
/// holds the functions of `fs` in another order, position `j` of `gs`
/// being position `perm[j]` of `fs`, and `inv` undoing `perm`.
pub proof fn acceptance_ignores_function_order(
    fs: Seq<FunctionView>,
    gs: Seq<FunctionView>,
    perm: Seq<int>,
    inv: Seq<int>,
)
    requires
        gs.len() == fs.len(),
        perm.len() == fs.len(),
        inv.len() == fs.len(),
        forall|j: int| 0 <= j < gs.len() ==> 0 <= #[trigger] perm[j] < fs.len() && gs[j] == fs[perm[j]],
        forall|i: int| 0 <= i < fs.len() ==> 0 <= #[trigger] inv[i] < gs.len() && perm[inv[i]] == i,
    ensures
        program_check(fs) is Ok <==> program_check(gs) is Ok,
{
    if program_check(fs) is Ok {
        lemma_order_one_way(fs, gs, perm, inv);
    }
    assert forall|j: int| 0 <= j < gs.len() implies inv[perm[j]] == j by {
        let i = perm[j];
        assert(perm[inv[i]] == i);
        assert(gs[inv[i]] == fs[i]);
        // `perm` is one-to-one: it is onto the positions of `fs`, which
        // are as many as those of `gs`.
        lemma_onto_is_one_to_one(perm, inv, inv[i], j);
    }
    if program_check(gs) is Ok {
        lemma_order_one_way(gs, fs, inv, perm);
    }
}

/// A map of `0..n` into itself that is onto (`perm[inv[i]] == i`) is
/// one-to-one.
proof fn lemma_onto_is_one_to_one(perm: Seq<int>, inv: Seq<int>, a: int, b: int)
    requires
        inv.len() == perm.len(),
        forall|j: int| 0 <= j < perm.len() ==> 0 <= #[trigger] perm[j] < perm.len(),
        forall|i: int| 0 <= i < perm.len() ==> 0 <= #[trigger] inv[i] < perm.len() && perm[inv[i]] == i,
        0 <= a < perm.len(),
        0 <= b < perm.len(),
        perm[a] == perm[b],
    ensures
        a == b,
{
    let n = perm.len() as int;
    // `inv` is one-to-one (it has a left inverse), so its image has `n`
    // elements and is all of `0..n`.
    let img = Set::new(|x: int| exists|i: int| 0 <= i < n && inv[i] == x);
    let dom = Set::new(|x: int| 0 <= x < n);
    assert(img.subset_of(dom));
    vstd::set_lib::lemma_int_range(0, n);
    assert(dom =~= vstd::set_lib::set_int_range(0, n));
    let ranged = vstd::set_lib::set_int_range(0, n);
    assert(ranged.map(|i: int| inv[i]) =~= img) by {
        assert forall|x: int| img.contains(x) implies ranged.map(|i: int| inv[i]).contains(x) by {
            let i = choose|i: int| 0 <= i < n && inv[i] == x;
            assert(ranged.contains(i));
        }
    }
    assert(vstd::relations::injective_on(|i: int| inv[i], ranged)) by {
        assert forall|x: int, y: int| ranged.contains(x) && ranged.contains(y) && #[trigger] inv[x] == #[trigger] inv[y] implies x == y by {
            assert(perm[inv[x]] == x);
            assert(perm[inv[y]] == y);
        }
    }
    vstd::set_lib::lemma_map_size(ranged, img, |i: int| inv[i]);
    vstd::set_lib::lemma_subset_equality(img, dom);
    assert(img.contains(a));
    assert(img.contains(b));
    let ia = choose|i: int| 0 <= i < n && inv[i] == a;
    let ib = choose|i: int| 0 <= i < n && inv[i] == b;
    assert(perm[inv[ia]] == ia);
    assert(perm[inv[ib]] == ib);
}

proof fn lemma_order_one_way(fs: Seq<FunctionView>, gs: Seq<FunctionView>, perm: Seq<int>, inv: Seq<int>)
    requires
        gs.len() == fs.len(),
        perm.len() == fs.len(),
        inv.len() == fs.len(),
        forall|j: int| 0 <= j < gs.len() ==> 0 <= #[trigger] perm[j] < fs.len() && gs[j] == fs[perm[j]],
        forall|i: int| 0 <= i < fs.len() ==> 0 <= #[trigger] inv[i] < gs.len() && perm[inv[i]] == i,
        program_check(fs) is Ok,
    ensures
        program_check(gs) is Ok,
{
    let b = builtin_sigs();
    lemma_register_ok(b, fs, 0);
    lemma_register_ok(b, gs, 0);
    let all = register_from(b, fs, 0)->Ok_0;
    lemma_register(b, fs, 0);
    assert(fresh_names(b, gs, 0)) by {
        assert forall|j: int| 0 <= j < gs.len() implies !b.contains_key(#[trigger] gs[j].name) by {
            assert(gs[j] == fs[perm[j]]);
        }
        assert forall|j: int, k: int| 0 <= j < k < gs.len() implies (#[trigger] gs[j]).name != (#[trigger] gs[k]).name by {
            if gs[j].name == gs[k].name {
                let (pj, pk) = (perm[j], perm[k]);
                if pj < pk {
                    assert(fs[pj].name != fs[pk].name);
                } else if pk < pj {
                    assert(fs[pk].name != fs[pj].name);
                } else {
                    lemma_onto_is_one_to_one(perm, inv, j, k);
                }
            }
        }
    }
    let all2 = register_from(b, gs, 0)->Ok_0;
    lemma_register(b, gs, 0);
    assert(all2 =~= all) by {
        assert forall|n: Seq<char>| #[trigger] all.contains_key(n) implies all2.contains_key(n) && all2[n] == all[n] by {
            if !b.contains_key(n) {
                let j = choose|j: int| 0 <= j < fs.len() && (#[trigger] fs[j]).name == n;
                assert(gs[inv[j]] == fs[j]);
            }
        }
        assert forall|n: Seq<char>| #[trigger] all2.contains_key(n) implies all.contains_key(n) by {
            if !b.contains_key(n) {
                let j = choose|j: int| 0 <= j < gs.len() && (#[trigger] gs[j]).name == n;
                assert(fs[perm[j]] == gs[j]);
            }
        }
    }
    lemma_check_from_ok(all, fs, 0);
    lemma_check_from_ok(all, gs, 0);
    assert forall|j: int| 0 <= j < gs.len() implies function_check(all, #[trigger] gs[j]) is Ok by {
        assert(gs[j] == fs[perm[j]]);
    }
}

} // verus!
