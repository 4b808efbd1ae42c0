use minilang::ast::{BinOp, ElseBranch, Expr, Program, Stmt, Type};
use minilang::interpreter::{Interpreter, RuntimeError, Value};
use minilang::semantics::Fault;
use minilang::typechecker::TypeChecker;
use minilang::test_util::{int_lit, bin, block, boolean, call, func, ident, param, program};

// Every program here declares its variables before use and gives each
// operator operands of the right type.
fn let_stmt(name: &str, mutable: bool, value: Expr) -> Stmt {
    minilang::test_util::let_stmt(name, mutable, None, value)
}

/// Type-checks (which must pass: that is the test's setup, not what it
/// tests), then runs.
fn run_checked(program: &Program) -> Result<Value, RuntimeError> {
    TypeChecker::new()
        .check_program(program)
        .expect("test program should type-check");
    Interpreter::new(program).run()
}

#[test]
fn evaluates_arithmetic_with_precedence() {
    // fn main() -> i32 { 1 + 2 * 3 }
    let body = block(vec![], Some(bin(BinOp::Add, int_lit(1), bin(BinOp::Mul, int_lit(2), int_lit(3)))));
    let prog = program(vec![func("main", vec![], Type::I32, body)]);
    assert_eq!(run_checked(&prog), Ok(Value::I32(7)));
}

#[test]
fn recursive_factorial() {
    // fn fact(n: i32) -> i32 { if n == 0 { 1 } else { n * fact(n - 1) } }
    // fn main() -> i32 { fact(5) }
    let fact_body = block(
        vec![],
        Some(Expr::If {
            cond: Box::new(bin(BinOp::Eq, ident("n"), int_lit(0))),
            then_branch: block(vec![], Some(int_lit(1))),
            else_branch: Some(Box::new(ElseBranch::Block(block(
                vec![],
                Some(bin(
                    BinOp::Mul,
                    ident("n"),
                    call("fact", vec![bin(BinOp::Sub, ident("n"), int_lit(1))]),
                )),
            )))),
        }),
    );
    let fact = func("fact", vec![param("n", Type::I32)], Type::I32, fact_body);
    let main = func("main", vec![], Type::I32, block(vec![], Some(call("fact", vec![int_lit(5)]))));
    let prog = program(vec![fact, main]);
    assert_eq!(run_checked(&prog), Ok(Value::I32(120)));
}

#[test]
fn while_loop_accumulates_with_mutation() {
    // fn main() -> i32 {
    //     let mut sum = 0; let mut i = 1;
    //     while i <= 5 { sum = sum + i; i = i + 1; }
    //     sum
    // }
    let body = block(
        vec![
            let_stmt("sum", true, int_lit(0)),
            let_stmt("i", true, int_lit(1)),
            Stmt::While {
                cond: bin(BinOp::LtEq, ident("i"), int_lit(5)),
                body: block(
                    vec![
                        Stmt::Expr(Expr::Assign {
                            name: "sum".into(),
                            value: Box::new(bin(BinOp::Add, ident("sum"), ident("i"))),
                        }),
                        Stmt::Expr(Expr::Assign {
                            name: "i".into(),
                            value: Box::new(bin(BinOp::Add, ident("i"), int_lit(1))),
                        }),
                    ],
                    None,
                ),
            },
        ],
        Some(ident("sum")),
    );
    let prog = program(vec![func("main", vec![], Type::I32, body)]);
    assert_eq!(run_checked(&prog), Ok(Value::I32(15)));
}

#[test]
fn early_return_from_if_used_as_a_statement() {
    // fn main() -> i32 { if true { return 1; } 2 }
    let body = block(
        vec![Stmt::Expr(Expr::If {
            cond: Box::new(boolean(true)),
            then_branch: block(vec![Stmt::Return(Some(int_lit(1)))], None),
            else_branch: None,
        })],
        Some(int_lit(2)),
    );
    let prog = program(vec![func("main", vec![], Type::I32, body)]);
    assert_eq!(run_checked(&prog), Ok(Value::I32(1)));
}

#[test]
fn short_circuit_and_never_evaluates_rhs() {
    // fn main() -> bool { false && (1 / 0 == 0) }
    let body = block(
        vec![],
        Some(bin(
            BinOp::And,
            boolean(false),
            bin(BinOp::Eq, bin(BinOp::Div, int_lit(1), int_lit(0)), int_lit(0)),
        )),
    );
    let prog = program(vec![func("main", vec![], Type::Bool, body)]);
    assert_eq!(run_checked(&prog), Ok(Value::Bool(false)));
}

#[test]
fn short_circuit_or_never_evaluates_rhs() {
    // fn main() -> bool { true || (1 / 0 == 0) }
    let body = block(
        vec![],
        Some(bin(
            BinOp::Or,
            boolean(true),
            bin(BinOp::Eq, bin(BinOp::Div, int_lit(1), int_lit(0)), int_lit(0)),
        )),
    );
    let prog = program(vec![func("main", vec![], Type::Bool, body)]);
    assert_eq!(run_checked(&prog), Ok(Value::Bool(true)));
}

#[test]
fn division_by_zero_is_a_runtime_error() {
    // fn main() -> i32 { 1 / 0 }
    let body = block(vec![], Some(bin(BinOp::Div, int_lit(1), int_lit(0))));
    let prog = program(vec![func("main", vec![], Type::I32, body)]);
    assert_eq!(run_checked(&prog), Err(RuntimeError::DivisionByZero));
}

#[test]
fn modulo_by_zero_is_a_runtime_error() {
    // fn main() -> i32 { 1 % 0 }
    let body = block(vec![], Some(bin(BinOp::Mod, int_lit(1), int_lit(0))));
    let prog = program(vec![func("main", vec![], Type::I32, body)]);
    assert_eq!(run_checked(&prog), Err(RuntimeError::ModuloByZero));
}

#[test]
fn integer_overflow_is_a_runtime_error() {
    // fn main() -> i32 { 2147483647 + 1 }  (i32::MAX + 1)
    let body = block(vec![], Some(bin(BinOp::Add, int_lit(i32::MAX as i64), int_lit(1))));
    let prog = program(vec![func("main", vec![], Type::I32, body)]);
    assert_eq!(run_checked(&prog), Err(RuntimeError::IntegerOverflow));
}

#[test]
fn integer_literal_out_of_i32_range_is_a_runtime_error() {
    // fn main() -> i32 { 5000000000 }  -- doesn't fit in i32
    let body = block(vec![], Some(int_lit(5_000_000_000)));
    let prog = program(vec![func("main", vec![], Type::I32, body)]);
    assert_eq!(run_checked(&prog), Err(RuntimeError::LiteralOutOfRange(5_000_000_000)));
}

#[test]
fn missing_main_is_a_runtime_error() {
    let prog = program(vec![func("helper", vec![], Type::I32, block(vec![], Some(int_lit(1))))]);
    assert_eq!(run_checked(&prog), Err(RuntimeError::NoMainFunction));
}

#[test]
fn print_builtin_executes_and_returns_unit() {
    // fn main() { print(42); }
    let body = block(vec![Stmt::Expr(call("print", vec![int_lit(42)]))], None);
    let prog = program(vec![func("main", vec![], Type::Unit, body)]);
    assert_eq!(run_checked(&prog), Ok(Value::Unit));
}

// ---- further cases ----

#[test]
fn print_output_is_collected_in_order() {
    // fn main() { print(1); print_bool(true); print(-7); }
    let body = block(
        vec![
            Stmt::Expr(call("print", vec![int_lit(1)])),
            Stmt::Expr(call("print_bool", vec![boolean(true)])),
            Stmt::Expr(call("print", vec![int_lit(-7)])),
        ],
        None,
    );
    let prog = program(vec![func("main", vec![], Type::Unit, body)]);
    let (res, out) = Interpreter::new(&prog).run_bounded(u64::MAX);
    assert_eq!(res, Ok(Value::Unit));
    assert_eq!(out, vec![Value::I32(1), Value::Bool(true), Value::I32(-7)]);
    let shown: Vec<String> = out.iter().map(|v| v.to_display_string()).collect();
    assert_eq!(shown, vec!["1", "true", "-7"]);
}

#[test]
fn truncating_division_and_remainder() {
    // -7 / 2 == -3 and -7 % 2 == -1, as in Rust's i32
    let q = program(vec![func("main", vec![], Type::I32, block(vec![], Some(bin(BinOp::Div, int_lit(-7), int_lit(2)))))]);
    assert_eq!(run_checked(&q), Ok(Value::I32(-3)));
    let r = program(vec![func("main", vec![], Type::I32, block(vec![], Some(bin(BinOp::Mod, int_lit(-7), int_lit(2)))))]);
    assert_eq!(run_checked(&r), Ok(Value::I32(-1)));
    let r2 = program(vec![func("main", vec![], Type::I32, block(vec![], Some(bin(BinOp::Mod, int_lit(7), int_lit(-2)))))]);
    assert_eq!(run_checked(&r2), Ok(Value::I32(1)));
}

#[test]
fn min_divided_by_minus_one_overflows() {
    let d = program(vec![func(
        "main",
        vec![],
        Type::I32,
        block(vec![], Some(bin(BinOp::Div, int_lit(i32::MIN as i64), int_lit(-1)))),
    )]);
    assert_eq!(run_checked(&d), Err(RuntimeError::IntegerOverflow));
    let m = program(vec![func(
        "main",
        vec![],
        Type::I32,
        block(vec![], Some(bin(BinOp::Mod, int_lit(i32::MIN as i64), int_lit(-1)))),
    )]);
    assert_eq!(run_checked(&m), Err(RuntimeError::IntegerOverflow));
}

#[test]
fn later_declaration_of_a_name_wins() {
    let first = func("main", vec![], Type::I32, block(vec![], Some(int_lit(1))));
    let second = func("main", vec![], Type::I32, block(vec![], Some(int_lit(2))));
    // The type checker refuses such a program; the interpreter on its own
    // calls the later declaration.
    let prog = program(vec![first, second]);
    assert!(TypeChecker::new().check_program(&prog).is_err());
    assert_eq!(Interpreter::new(&prog).run(), Ok(Value::I32(2)));
}

#[test]
fn undefined_variable_gets_stuck() {
    let prog = program(vec![func("main", vec![], Type::I32, block(vec![], Some(ident("x"))))]);
    let (res, _) = Interpreter::new(&prog).run_bounded(u64::MAX);
    assert_eq!(res, Err(Fault::Stuck));
}

#[test]
fn small_fuel_runs_out() {
    let prog = program(vec![func("main", vec![], Type::I32, block(vec![], Some(int_lit(1))))]);
    let (res, _) = Interpreter::new(&prog).run_bounded(1);
    assert_eq!(res, Err(Fault::OutOfFuel));
    let (res, _) = Interpreter::new(&prog).run_bounded(3);
    assert_eq!(res, Ok(Value::I32(1)));
}

#[test]
fn runtime_error_messages() {
    assert_eq!(RuntimeError::DivisionByZero.to_display_string(), "division by zero");
    assert_eq!(
        RuntimeError::LiteralOutOfRange(5_000_000_000).to_display_string(),
        "integer literal 5000000000 does not fit in i32"
    );
    assert_eq!(
        RuntimeError::LiteralOutOfRange(i64::MIN).to_display_string(),
        "integer literal -9223372036854775808 does not fit in i32"
    );
    assert_eq!(Value::Unit.to_display_string(), "()");
}

#[test]
fn more_fuel_gives_the_same_finished_run() {
    let body = block(vec![Stmt::Expr(call("print", vec![int_lit(3)]))], Some(bin(BinOp::Add, int_lit(1), int_lit(2))));
    let prog = program(vec![func("main", vec![], Type::I32, body)]);
    let small = Interpreter::new(&prog).run_bounded(20);
    assert_eq!(small.0, Ok(Value::I32(3)));
    assert_eq!(Interpreter::new(&prog).run_bounded(u64::MAX), small);
}

#[test]
fn names_declared_in_a_block_are_gone_after_it() {
    // fn main() -> i32 { { let x = 1; } x }  -- refused by the checker; run
    // anyway, the lookup of `x` finds nothing.
    let inner = block(vec![let_stmt("x", false, int_lit(1))], None);
    let prog = program(vec![func("main", vec![], Type::I32, block(vec![Stmt::Expr(Expr::Block(inner))], Some(ident("x"))))]);
    assert!(TypeChecker::new().check_program(&prog).is_err());
    let (res, _) = Interpreter::new(&prog).run_bounded(u64::MAX);
    assert_eq!(res, Err(Fault::Stuck));
}

#[test]
fn main_with_a_used_parameter_is_the_one_way_to_get_stuck_after_checking() {
    // fn main(n: i32) -> i32 { n }  -- well typed, but `main` gets no argument.
    let prog = program(vec![func("main", vec![param("n", Type::I32)], Type::I32, block(vec![], Some(ident("n"))))]);
    assert!(TypeChecker::new().check_program(&prog).is_ok());
    let (res, _) = Interpreter::new(&prog).run_bounded(u64::MAX);
    assert_eq!(res, Err(Fault::Stuck));
}

#[test]
fn wrapping_never_happens() {
    let prog = program(vec![func("main", vec![], Type::I32, block(vec![], Some(bin(BinOp::Mul, int_lit(65536), int_lit(65536)))))]);
    assert_eq!(run_checked(&prog), Err(RuntimeError::IntegerOverflow));
    let prog = program(vec![func("main", vec![], Type::I32, block(vec![], Some(bin(BinOp::Div, int_lit(i32::MIN as i64), int_lit(0)))))]);
    assert_eq!(run_checked(&prog), Err(RuntimeError::DivisionByZero));
}
