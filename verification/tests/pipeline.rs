use minilang::bridge::bridge_tokens;
use minilang::interpreter::{Interpreter, RuntimeError, Value};
use minilang::lexer::lex;
use minilang::parser::Token as PToken;
use minilang::pipeline::{front_end, FrontEndError};
use minilang::semantics::Fault;
use minilang::typechecker::TypeError;

const SAMPLE_PROGRAM: &str = r#"
fn fib(n: i32) -> i32 {
    if n <= 1 {
        n
    } else {
        fib(n - 1) + fib(n - 2)
    }
}

fn main() -> i32 {
    let mut i = 0;
    while i < 10 {
        print(fib(i));
        i = i + 1;
    }
    0
}
"#;

fn run(source: &str) -> (Result<Value, Fault>, Vec<Value>) {
    let program = match front_end(source) {
        Ok(p) => p,
        Err(_) => panic!("front end refused the program"),
    };
    let (res, out) = Interpreter::new(&program).run_bounded(u64::MAX);
    (res, out)
}

#[test]
fn end_to_end_pipeline_runs_the_sample_program() {
    let (res, out) = run(SAMPLE_PROGRAM);
    assert_eq!(res, Ok(Value::I32(0)));
    let fibs: Vec<Value> = [0, 1, 1, 2, 3, 5, 8, 13, 21, 34].iter().map(|n| Value::I32(*n)).collect();
    assert_eq!(out, fibs);
}

#[test]
fn bridges_a_small_program_to_matching_parser_tokens() {
    let tokens = lex("fn f(x: i32) -> bool { x == 1 }").tokens;
    let bridged = bridge_tokens(tokens).unwrap();
    assert_eq!(
        bridged,
        vec![
            PToken::Fn,
            PToken::Ident("f".into()),
            PToken::LParen,
            PToken::Ident("x".into()),
            PToken::Colon,
            PToken::TyI32,
            PToken::RParen,
            PToken::Arrow,
            PToken::TyBool,
            PToken::LBrace,
            PToken::Ident("x".into()),
            PToken::EqEq,
            PToken::Int(1),
            PToken::RBrace,
            PToken::Eof,
        ]
    );
}

#[test]
fn unsupported_literal_is_a_clear_bridge_error() {
    let tokens = lex(r#""hi""#).tokens;
    assert!(bridge_tokens(tokens).is_err());
}

// ---- further cases ----

#[test]
fn bridge_messages_name_the_token() {
    assert_eq!(
        bridge_tokens(lex(r#""hi""#).tokens),
        Err("unsupported literal `\"hi\"` (only i32 and bool literals are supported)".to_string())
    );
    assert_eq!(
        bridge_tokens(lex("struct").tokens),
        Err("`struct` is not supported by this language subset".to_string())
    );
    assert_eq!(
        bridge_tokens(lex("a[0]").tokens),
        Err("delimiter `[` is not supported by this language subset".to_string())
    );
    assert_eq!(
        bridge_tokens(lex("a ^ b").tokens),
        Err("operator `^` is not supported by this language subset".to_string())
    );
    assert_eq!(
        bridge_tokens(lex("1.5").tokens),
        Err("unsupported literal `1.5` (only i32 and bool literals are supported)".to_string())
    );
}

#[test]
fn bridge_maps_keywords_booleans_and_type_names() {
    let bridged = bridge_tokens(lex("let mut b = true; while false { return; } if else bool").tokens).unwrap();
    assert_eq!(
        bridged,
        vec![
            PToken::Let,
            PToken::Mut,
            PToken::Ident("b".into()),
            PToken::Eq,
            PToken::True,
            PToken::Semicolon,
            PToken::While,
            PToken::False,
            PToken::LBrace,
            PToken::Return,
            PToken::Semicolon,
            PToken::RBrace,
            PToken::If,
            PToken::Else,
            PToken::TyBool,
            PToken::Eof,
        ]
    );
}

#[test]
fn each_stage_reports_its_own_failure() {
    match front_end("fn main() { let x = 1 @ 2; }") {
        Err(FrontEndError::Lex(errs)) => assert_eq!(errs.len(), 1),
        _ => panic!("expected a lexical error"),
    }
    match front_end("fn main() { loop { } }") {
        Err(FrontEndError::Unsupported(m)) => {
            assert_eq!(m, "`loop` is not supported by this language subset")
        }
        _ => panic!("expected an unsupported token"),
    }
    match front_end("fn main() { x y }") {
        Err(FrontEndError::Parse(e)) => assert_eq!(e.message, "expected `;` after expression statement"),
        _ => panic!("expected a parse error"),
    }
    match front_end("fn main() -> i32 { true }") {
        Err(FrontEndError::Type(e)) => assert_eq!(
            e,
            TypeError::FunctionBodyTypeMismatch { func: "main".into(), expected: minilang::ast::Type::I32, found: minilang::ast::Type::Bool }
        ),
        _ => panic!("expected a type error"),
    }
}

#[test]
fn checked_program_reports_runtime_errors() {
    let (res, out) = run("fn main() -> i32 { print(7); 1 / 0 }");
    assert_eq!(res, Err(Fault::Runtime(RuntimeError::DivisionByZero)));
    assert_eq!(out, vec![Value::I32(7)]);
}

#[test]
fn short_circuit_skips_the_right_operand() {
    // The right operand would divide by zero if it ran.
    let (res, _) = run("fn main() -> bool { false && 1 / 0 == 0 }");
    assert_eq!(res, Ok(Value::Bool(false)));
    let (res, _) = run("fn main() -> bool { true || 1 / 0 == 0 }");
    assert_eq!(res, Ok(Value::Bool(true)));
}

#[test]
fn return_buried_in_an_operand_ends_the_call() {
    // `return` inside an `if` that is the operand of `+` unwinds to the call.
    let (res, _) = run("fn f(c: bool) -> i32 { 1 + (if c { return 5; 2 } else { 3 }) }\nfn main() -> i32 { f(true) * 10 + f(false) }");
    assert_eq!(res, Ok(Value::I32(54)));
}

#[test]
fn forward_reference_and_shadowing_run() {
    let source = "fn main() -> i32 { let x = later(2); let x = x + 1; x }\nfn later(n: i32) -> i32 { n * n }";
    let (res, _) = run(source);
    assert_eq!(res, Ok(Value::I32(5)));
}

#[test]
fn literal_out_of_range_is_a_runtime_error() {
    let (res, _) = run("fn main() -> i32 { 3000000000 }");
    assert_eq!(res, Err(Fault::Runtime(RuntimeError::LiteralOutOfRange(3_000_000_000))));
}
