use minilang::ast::{BinOp, Expr, Item, Stmt, Type};
use minilang::parser::{Parser, Token};

fn ident(name: &str) -> Token {
    Token::Ident(name.to_string())
}

#[test]
fn parses_simple_function() {
    // fn add(a: i32, b: i32) -> i32 { a + b }
    let tokens = vec![
        Token::Fn,
        ident("add"),
        Token::LParen,
        ident("a"),
        Token::Colon,
        Token::TyI32,
        Token::Comma,
        ident("b"),
        Token::Colon,
        Token::TyI32,
        Token::RParen,
        Token::Arrow,
        Token::TyI32,
        Token::LBrace,
        ident("a"),
        Token::Plus,
        ident("b"),
        Token::RBrace,
        Token::Eof,
    ];
    let program = Parser::new(tokens).parse_program().unwrap();
    assert_eq!(program.items.len(), 1);
}

#[test]
fn if_statement_without_semicolon_is_followed_by_more_statements() {
    // fn f() { if true { } let y = 1; }
    let tokens = vec![
        Token::Fn,
        ident("f"),
        Token::LParen,
        Token::RParen,
        Token::LBrace,
        Token::If,
        Token::True,
        Token::LBrace,
        Token::RBrace,
        Token::Let,
        ident("y"),
        Token::Eq,
        Token::Int(1),
        Token::Semicolon,
        Token::RBrace,
        Token::Eof,
    ];
    let program = Parser::new(tokens).parse_program().unwrap();
    let Item::Function(f) = &program.items[0];
    assert_eq!(f.body.stmts.len(), 2);
    assert!(f.body.tail.is_none());
}

#[test]
fn if_as_tail_expression_still_works() {
    // fn f() -> i32 { if true { 1 } else { 2 } }
    let tokens = vec![
        Token::Fn,
        ident("f"),
        Token::LParen,
        Token::RParen,
        Token::Arrow,
        Token::TyI32,
        Token::LBrace,
        Token::If,
        Token::True,
        Token::LBrace,
        Token::Int(1),
        Token::RBrace,
        Token::Else,
        Token::LBrace,
        Token::Int(2),
        Token::RBrace,
        Token::RBrace,
        Token::Eof,
    ];
    let program = Parser::new(tokens).parse_program().unwrap();
    let Item::Function(f) = &program.items[0];
    assert!(f.body.stmts.is_empty());
    assert!(matches!(f.body.tail.as_deref(), Some(Expr::If { .. })));
}

#[test]
fn missing_semicolon_between_expressions_is_an_error() {
    // fn f() { x y }
    let tokens = vec![
        Token::Fn,
        ident("f"),
        Token::LParen,
        Token::RParen,
        Token::LBrace,
        ident("x"),
        ident("y"),
        Token::RBrace,
        Token::Eof,
    ];
    let result = Parser::new(tokens).parse_program();
    assert!(result.is_err());
}

#[test]
fn missing_semicolon_error_names_the_token_and_position() {
    let tokens = vec![
        Token::Fn,
        ident("f"),
        Token::LParen,
        Token::RParen,
        Token::LBrace,
        ident("x"),
        ident("y"),
        Token::RBrace,
        Token::Eof,
    ];
    let err = Parser::new(tokens).parse_program().unwrap_err();
    assert_eq!(err.message, "expected `;` after expression statement");
    assert_eq!(err.found, ident("y"));
    assert_eq!(err.pos, 6);
}

#[test]
fn empty_token_stream_is_an_empty_program() {
    let program = Parser::new(vec![Token::Eof]).parse_program().unwrap();
    assert!(program.items.is_empty());
}

#[test]
fn precedence_and_left_associativity() {
    // fn f() { 1 - 2 - 3 * 4 }  parses as (1 - 2) - (3 * 4)
    let tokens = vec![
        Token::Fn,
        ident("f"),
        Token::LParen,
        Token::RParen,
        Token::LBrace,
        Token::Int(1),
        Token::Minus,
        Token::Int(2),
        Token::Minus,
        Token::Int(3),
        Token::Star,
        Token::Int(4),
        Token::RBrace,
        Token::Eof,
    ];
    let program = Parser::new(tokens).parse_program().unwrap();
    let Item::Function(f) = &program.items[0];
    assert_eq!(f.return_type, Type::Unit);
    match f.body.tail.as_deref() {
        Some(Expr::Binary { op: BinOp::Sub, lhs, rhs }) => {
            assert!(matches!(**lhs, Expr::Binary { op: BinOp::Sub, .. }));
            assert!(matches!(**rhs, Expr::Binary { op: BinOp::Mul, .. }));
        }
        other => panic!("unexpected tail {:?}", other),
    }
}

#[test]
fn assignment_is_right_associative() {
    // fn f() { a = b = 1; }
    let tokens = vec![
        Token::Fn,
        ident("f"),
        Token::LParen,
        Token::RParen,
        Token::LBrace,
        ident("a"),
        Token::Eq,
        ident("b"),
        Token::Eq,
        Token::Int(1),
        Token::Semicolon,
        Token::RBrace,
        Token::Eof,
    ];
    let program = Parser::new(tokens).parse_program().unwrap();
    let Item::Function(f) = &program.items[0];
    match &f.body.stmts[0] {
        Stmt::Expr(Expr::Assign { name, value }) => {
            assert_eq!(name, "a");
            assert!(matches!(**value, Expr::Assign { .. }));
        }
        other => panic!("unexpected statement {:?}", other),
    }
}

#[test]
fn item_must_start_with_fn() {
    let err = Parser::new(vec![Token::Let, Token::Eof]).parse_program().unwrap_err();
    assert_eq!(err.message, "expected Fn at start of item");
    assert_eq!(err.found, Token::Let);
    assert_eq!(err.pos, 0);
}

#[test]
fn two_functions_in_order() {
    let tokens = vec![
        Token::Fn,
        ident("a"),
        Token::LParen,
        Token::RParen,
        Token::LBrace,
        Token::RBrace,
        Token::Fn,
        ident("b"),
        Token::LParen,
        ident("x"),
        Token::Colon,
        Token::TyBool,
        Token::RParen,
        Token::LBrace,
        Token::RBrace,
        Token::Eof,
    ];
    let program = Parser::new(tokens).parse_program().unwrap();
    assert_eq!(program.items.len(), 2);
    let Item::Function(a) = &program.items[0];
    let Item::Function(b) = &program.items[1];
    assert_eq!(a.name, "a");
    assert_eq!(b.name, "b");
    assert_eq!(b.params.len(), 1);
    assert_eq!(b.params[0].ty, Type::Bool);
}

#[test]
fn error_leaves_the_parser_at_the_error_position() {
    // fn f() { ) }
    let tokens = vec![Token::Fn, ident("f"), Token::LParen, Token::RParen, Token::LBrace, Token::RParen, Token::RBrace, Token::Eof];
    let mut parser = Parser::new(tokens);
    let err = parser.parse_program().unwrap_err();
    assert_eq!(err.message, "expected an expression");
    assert_eq!(err.found, Token::RParen);
    assert_eq!(err.pos, 5);
    assert_eq!(parser.cursor(), 5);
}

#[test]
fn a_call_of_a_call_is_not_callable() {
    // fn f() { g()() }
    let tokens = vec![
        Token::Fn,
        ident("f"),
        Token::LParen,
        Token::RParen,
        Token::LBrace,
        ident("g"),
        Token::LParen,
        Token::RParen,
        Token::LParen,
        Token::RParen,
        Token::RBrace,
        Token::Eof,
    ];
    let err = Parser::new(tokens).parse_program().unwrap_err();
    assert_eq!(err.message, "expression is not callable");
    assert_eq!(err.found, Token::LParen);
    assert_eq!(err.pos, 8);
}
