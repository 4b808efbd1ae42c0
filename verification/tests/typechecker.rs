use minilang::ast::{BinOp, ElseBranch, Expr, Stmt, Type, UnOp};
use minilang::test_util::{bin, block, boolean, call, func, ident, int_lit, let_stmt, param, program};
use minilang::typechecker::{TypeChecker, TypeError};

#[test]
fn valid_recursive_function_checks_ok() {
    // fn fact(n: i32) -> i32 { if n == 0 { 1 } else { n * fact(n - 1) } }
    let body = block(
        vec![],
        Some(Expr::If {
            cond: Box::new(bin(BinOp::Eq, ident("n"), int_lit(0))),
            then_branch: block(vec![], Some(int_lit(1))),
            else_branch: Some(Box::new(ElseBranch::Block(block(
                vec![],
                Some(bin(
                    BinOp::Mul,
                    ident("n"),
                    call("fact", vec![bin(BinOp::Sub, ident("n"), int_lit(1))]),
                )),
            )))),
        }),
    );
    let prog = program(vec![func("fact", vec![param("n", Type::I32)], Type::I32, body)]);
    assert!(TypeChecker::new().check_program(&prog).is_ok());
}

#[test]
fn mutual_recursion_via_forward_reference_checks_ok() {
    let is_even_body = block(
        vec![],
        Some(Expr::If {
            cond: Box::new(bin(BinOp::Eq, ident("n"), int_lit(0))),
            then_branch: block(vec![], Some(boolean(true))),
            else_branch: Some(Box::new(ElseBranch::Block(block(
                vec![],
                Some(call("is_odd", vec![bin(BinOp::Sub, ident("n"), int_lit(1))])),
            )))),
        }),
    );
    let is_odd_body = block(
        vec![],
        Some(Expr::If {
            cond: Box::new(bin(BinOp::Eq, ident("n"), int_lit(0))),
            then_branch: block(vec![], Some(boolean(false))),
            else_branch: Some(Box::new(ElseBranch::Block(block(
                vec![],
                Some(call("is_even", vec![bin(BinOp::Sub, ident("n"), int_lit(1))])),
            )))),
        }),
    );
    let prog = program(vec![
        func("is_even", vec![param("n", Type::I32)], Type::Bool, is_even_body),
        func("is_odd", vec![param("n", Type::I32)], Type::Bool, is_odd_body),
    ]);
    assert!(TypeChecker::new().check_program(&prog).is_ok());
}

#[test]
fn let_type_mismatch_is_rejected() {
    // fn f() { let x: bool = 1; }
    let body = block(vec![let_stmt("x", false, Some(Type::Bool), int_lit(1))], None);
    let prog = program(vec![func("f", vec![], Type::Unit, body)]);
    assert_eq!(
        TypeChecker::new().check_program(&prog),
        Err(TypeError::LetTypeMismatch { name: "x".into(), declared: Type::Bool, found: Type::I32 })
    );
}

#[test]
fn assign_to_immutable_is_rejected() {
    // fn f() { let x = 1; x = 2; }
    let body = block(
        vec![
            let_stmt("x", false, None, int_lit(1)),
            Stmt::Expr(Expr::Assign { name: "x".into(), value: Box::new(int_lit(2)) }),
        ],
        None,
    );
    let prog = program(vec![func("f", vec![], Type::Unit, body)]);
    assert_eq!(
        TypeChecker::new().check_program(&prog),
        Err(TypeError::AssignToImmutable("x".into()))
    );
}

#[test]
fn assign_to_mutable_with_matching_type_is_ok() {
    // fn f() { let mut x = 1; x = 2; }
    let body = block(
        vec![
            let_stmt("x", true, None, int_lit(1)),
            Stmt::Expr(Expr::Assign { name: "x".into(), value: Box::new(int_lit(2)) }),
        ],
        None,
    );
    let prog = program(vec![func("f", vec![], Type::Unit, body)]);
    assert!(TypeChecker::new().check_program(&prog).is_ok());
}

#[test]
fn binary_op_type_mismatch_is_rejected() {
    // fn f() -> i32 { true + 1 }
    let body = block(vec![], Some(bin(BinOp::Add, boolean(true), int_lit(1))));
    let prog = program(vec![func("f", vec![], Type::I32, body)]);
    assert_eq!(
        TypeChecker::new().check_program(&prog),
        Err(TypeError::BinaryOpTypeError { op: BinOp::Add, lhs: Type::Bool, rhs: Type::I32 })
    );
}

#[test]
fn if_branch_type_mismatch_is_rejected() {
    // fn f() -> i32 { if true { 1 } else { false } }
    let body = block(
        vec![],
        Some(Expr::If {
            cond: Box::new(boolean(true)),
            then_branch: block(vec![], Some(int_lit(1))),
            else_branch: Some(Box::new(ElseBranch::Block(block(vec![], Some(boolean(false)))))),
        }),
    );
    let prog = program(vec![func("f", vec![], Type::I32, body)]);
    assert_eq!(
        TypeChecker::new().check_program(&prog),
        Err(TypeError::IfBranchMismatch { then_ty: Type::I32, else_ty: Type::Bool })
    );
}

#[test]
fn if_without_else_must_be_unit() {
    // fn f() { if true { 1 } }
    let body = block(
        vec![Stmt::Expr(Expr::If {
            cond: Box::new(boolean(true)),
            then_branch: block(vec![], Some(int_lit(1))),
            else_branch: None,
        })],
        None,
    );
    let prog = program(vec![func("f", vec![], Type::Unit, body)]);
    assert_eq!(
        TypeChecker::new().check_program(&prog),
        Err(TypeError::IfBranchMismatch { then_ty: Type::I32, else_ty: Type::Unit })
    );
}

#[test]
fn if_without_else_and_unit_body_is_ok() {
    // fn f() { if true { } }
    let body = block(
        vec![Stmt::Expr(Expr::If {
            cond: Box::new(boolean(true)),
            then_branch: block(vec![], None),
            else_branch: None,
        })],
        None,
    );
    let prog = program(vec![func("f", vec![], Type::Unit, body)]);
    assert!(TypeChecker::new().check_program(&prog).is_ok());
}

#[test]
fn variable_out_of_scope_after_block_ends() {
    // fn f() -> i32 { { let x = 1; } x }
    let inner = block(vec![let_stmt("x", false, None, int_lit(1))], None);
    let body = block(vec![Stmt::Expr(Expr::Block(inner))], Some(ident("x")));
    let prog = program(vec![func("f", vec![], Type::I32, body)]);
    assert_eq!(
        TypeChecker::new().check_program(&prog),
        Err(TypeError::UndefinedVariable("x".into()))
    );
}

#[test]
fn wrong_arg_count_is_rejected() {
    // fn add(a: i32, b: i32) -> i32 { a + b }
    // fn f() -> i32 { add(1) }
    let add_body = block(vec![], Some(bin(BinOp::Add, ident("a"), ident("b"))));
    let add = func("add", vec![param("a", Type::I32), param("b", Type::I32)], Type::I32, add_body);
    let f = func("f", vec![], Type::I32, block(vec![], Some(call("add", vec![int_lit(1)]))));
    let prog = program(vec![add, f]);
    assert_eq!(
        TypeChecker::new().check_program(&prog),
        Err(TypeError::ArgCountMismatch { func: "add".into(), expected: 2, found: 1 })
    );
}

#[test]
fn wrong_arg_type_is_rejected() {
    let tb = func("takes_bool", vec![param("x", Type::Bool)], Type::Bool, block(vec![], Some(ident("x"))));
    let f = func("f", vec![], Type::Bool, block(vec![], Some(call("takes_bool", vec![int_lit(1)]))));
    let prog = program(vec![tb, f]);
    assert_eq!(
        TypeChecker::new().check_program(&prog),
        Err(TypeError::ArgTypeMismatch {
            func: "takes_bool".into(),
            index: 0,
            expected: Type::Bool,
            found: Type::I32,
        })
    );
}

#[test]
fn function_body_type_mismatch_is_rejected() {
    // fn f() -> i32 { true }
    let body = block(vec![], Some(boolean(true)));
    let prog = program(vec![func("f", vec![], Type::I32, body)]);
    assert_eq!(
        TypeChecker::new().check_program(&prog),
        Err(TypeError::FunctionBodyTypeMismatch {
            func: "f".into(),
            expected: Type::I32,
            found: Type::Bool,
        })
    );
}

#[test]
fn return_type_mismatch_is_rejected() {
    // fn f() -> i32 { return true; }
    let body = block(vec![Stmt::Return(Some(boolean(true)))], None);
    let prog = program(vec![func("f", vec![], Type::I32, body)]);
    assert_eq!(
        TypeChecker::new().check_program(&prog),
        Err(TypeError::ReturnTypeMismatch { expected: Type::I32, found: Type::Bool })
    );
}

#[test]
fn while_condition_must_be_bool() {
    // fn f() { while 1 { } }
    let body = block(vec![Stmt::While { cond: int_lit(1), body: block(vec![], None) }], None);
    let prog = program(vec![func("f", vec![], Type::Unit, body)]);
    assert_eq!(
        TypeChecker::new().check_program(&prog),
        Err(TypeError::ConditionNotBool { found: Type::I32 })
    );
}

#[test]
fn duplicate_function_definitions_are_rejected() {
    let f1 = func("f", vec![], Type::Unit, block(vec![], None));
    let f2 = func("f", vec![], Type::Unit, block(vec![], None));
    let prog = program(vec![f1, f2]);
    assert_eq!(
        TypeChecker::new().check_program(&prog),
        Err(TypeError::DuplicateFunction("f".into()))
    );
}

#[test]
fn shadowing_within_same_scope_is_allowed() {
    // fn f() -> i32 { let x = true; let x = 1; x }
    let body = block(
        vec![let_stmt("x", false, None, boolean(true)), let_stmt("x", false, None, int_lit(1))],
        Some(ident("x")),
    );
    let prog = program(vec![func("f", vec![], Type::I32, body)]);
    assert!(TypeChecker::new().check_program(&prog).is_ok());
}

// ---- further cases ----

#[test]
fn builtins_are_known_and_cannot_be_redefined() {
    // fn main() { print(1); print_bool(true); }
    let body = block(
        vec![
            Stmt::Expr(call("print", vec![int_lit(1)])),
            Stmt::Expr(call("print_bool", vec![boolean(true)])),
        ],
        None,
    );
    let prog = program(vec![func("main", vec![], Type::Unit, body)]);
    assert!(TypeChecker::default().check_program(&prog).is_ok());

    let bad = program(vec![func("print", vec![], Type::Unit, block(vec![], None))]);
    assert_eq!(
        TypeChecker::new().check_program(&bad),
        Err(TypeError::DuplicateFunction("print".into()))
    );

    let wrong = program(vec![func(
        "main",
        vec![],
        Type::Unit,
        block(vec![Stmt::Expr(call("print", vec![boolean(true)]))], None),
    )]);
    assert_eq!(
        TypeChecker::new().check_program(&wrong),
        Err(TypeError::ArgTypeMismatch { func: "print".into(), index: 0, expected: Type::I32, found: Type::Bool })
    );
}

#[test]
fn undefined_function_and_unary_errors() {
    let f = func("f", vec![], Type::I32, block(vec![], Some(call("nope", vec![]))));
    assert_eq!(
        TypeChecker::new().check_program(&program(vec![f])),
        Err(TypeError::UndefinedFunction("nope".into()))
    );
    let g = func(
        "g",
        vec![],
        Type::I32,
        block(vec![], Some(Expr::Unary { op: UnOp::Neg, expr: Box::new(boolean(true)) })),
    );
    assert_eq!(
        TypeChecker::new().check_program(&program(vec![g])),
        Err(TypeError::UnaryOpTypeError { op: UnOp::Neg, found: Type::Bool })
    );
}

#[test]
fn unit_equality_and_assignment_type() {
    // fn f() -> bool { () == () } is refused: the operands are ()
    let unit = Expr::Block(block(vec![], None));
    let f = func("f", vec![], Type::Bool, block(vec![], Some(Expr::Binary {
        op: BinOp::Eq,
        lhs: Box::new(unit),
        rhs: Box::new(Expr::Block(block(vec![], None))),
    })));
    assert_eq!(
        TypeChecker::new().check_program(&program(vec![f])),
        Err(TypeError::BinaryOpTypeError { op: BinOp::Eq, lhs: Type::Unit, rhs: Type::Unit })
    );
    // fn g() { let mut x = 1; x = true; }
    let g = func(
        "g",
        vec![],
        Type::Unit,
        block(
            vec![
                let_stmt("x", true, None, int_lit(1)),
                Stmt::Expr(Expr::Assign { name: "x".into(), value: Box::new(boolean(true)) }),
            ],
            None,
        ),
    );
    assert_eq!(
        TypeChecker::new().check_program(&program(vec![g])),
        Err(TypeError::AssignTypeMismatch { name: "x".into(), expected: Type::I32, found: Type::Bool })
    );
}

#[test]
fn first_error_in_program_order_is_reported() {
    let a = func("a", vec![], Type::I32, block(vec![], Some(boolean(true))));
    let b = func("b", vec![], Type::I32, block(vec![], Some(ident("y"))));
    assert_eq!(
        TypeChecker::new().check_program(&program(vec![a, b])),
        Err(TypeError::FunctionBodyTypeMismatch { func: "a".into(), expected: Type::I32, found: Type::Bool })
    );
}

#[test]
fn type_error_messages() {
    assert_eq!(
        TypeError::DuplicateFunction("f".into()).to_display_string(),
        "function `f` is defined more than once"
    );
    assert_eq!(
        TypeError::AssignToImmutable("x".into()).to_display_string(),
        "cannot assign to immutable variable `x` (declare it `let mut`)"
    );
    assert_eq!(
        TypeError::ArgCountMismatch { func: "add".into(), expected: 2, found: 1 }.to_display_string(),
        "function `add` expects 2 argument(s), found 1"
    );
    assert_eq!(
        TypeError::BinaryOpTypeError { op: BinOp::LtEq, lhs: Type::Bool, rhs: Type::Unit }.to_display_string(),
        "operator LtEq is not defined for types Bool and Unit"
    );
    assert_eq!(
        TypeError::LetTypeMismatch { name: "x".into(), declared: Type::Bool, found: Type::I32 }.to_display_string(),
        "`let x: Bool` initializer has type I32"
    );
    assert_eq!(
        TypeError::FunctionBodyTypeMismatch { func: "f".into(), expected: Type::I32, found: Type::Unit }
            .to_display_string(),
        "function `f` declared to return I32, but its body evaluates to Unit"
    );
}

#[test]
fn acceptance_does_not_depend_on_function_order() {
    let make = |first_caller: bool| {
        let caller = func("caller", vec![], Type::I32, block(vec![], Some(call("callee", vec![int_lit(1)]))));
        let callee = func("callee", vec![param("n", Type::I32)], Type::I32, block(vec![], Some(ident("n"))));
        if first_caller { program(vec![caller, callee]) } else { program(vec![callee, caller]) }
    };
    assert!(TypeChecker::new().check_program(&make(true)).is_ok());
    assert!(TypeChecker::new().check_program(&make(false)).is_ok());
}

#[test]
fn registered_signatures_stay_in_the_table() {
    let prog = program(vec![func("f", vec![], Type::Unit, block(vec![], None))]);
    let mut checker = TypeChecker::new();
    assert!(checker.check_program(&prog).is_ok());
    assert_eq!(checker.check_program(&prog), Err(TypeError::DuplicateFunction("f".into())));
}

#[test]
fn programs_clone_to_equal_trees() {
    let body = block(
        vec![let_stmt("x", true, None, call("g", vec![int_lit(1), boolean(false)]))],
        Some(Expr::If {
            cond: Box::new(ident("c")),
            then_branch: block(vec![], Some(ident("x"))),
            else_branch: Some(Box::new(ElseBranch::Block(block(vec![Stmt::Return(None)], None)))),
        }),
    );
    let prog = program(vec![func("f", vec![param("c", Type::Bool)], Type::I32, body)]);
    let copy = prog.clone();
    assert_eq!(format!("{:?}", copy), format!("{:?}", prog));
}
