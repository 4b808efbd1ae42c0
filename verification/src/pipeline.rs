//! Source text to a checked program: lex, map the tokens to the parser's,
//! parse, type-check. Each stage runs only when the one before it
//! succeeded, and the first failure is what comes back.
use vstd::prelude::*;
use vstd::utf8::encode_utf8;

use crate::ast::{program_view, Program};
use crate::bridge::{bridge_tokens, bridged, first_bridge_error};
use crate::lexer::{lex, lex_spec, LexError};
use crate::parser::{program_at, ParseError, Parser, Token};
use crate::typechecker::{program_check, TypeChecker, TypeError};

verus! {

/// The stage that refused a source text, with what it reported.
pub enum FrontEndError {
    /// Every lexical error, in source order.
    Lex(Vec<LexError>),
    /// A token the language does not support, with the message naming it.
    Unsupported(String),
    Parse(ParseError),
    Type(TypeError),
}

/// Lexes, parses and type-checks `source`; the program comes back only if
/// every stage accepts it.
#[verifier::rlimit(50)]
pub fn front_end(source: &str) -> (r: Result<Program, FrontEndError>)
    requires
        source@.len() < u32::MAX,
        encode_utf8(source@).len() <= usize::MAX,
    ensures
        ({
            let (toks, errs) = lex_spec(source@);
            match r {
                Err(FrontEndError::Lex(es)) => errs.len() > 0 && es@ == errs,
                Err(FrontEndError::Unsupported(m)) => errs.len() == 0 && first_bridge_error(toks)
                    == Some(m@),
                Err(FrontEndError::Parse(e)) => {
                    &&& errs.len() == 0
                    &&& first_bridge_error(toks) is None
                    &&& exists|ps: Seq<Token>| bridged(toks, ps) && program_at(ps) == Err::<
                        Seq<crate::ast::FunctionView>,
                        crate::parser::SyntaxError,
                    >(e@)
                },
                Err(FrontEndError::Type(e)) => {
                    &&& errs.len() == 0
                    &&& first_bridge_error(toks) is None
                    &&& exists|ps: Seq<Token>|
                        bridged(toks, ps) && program_at(ps) is Ok && program_check(
                            program_at(ps)->Ok_0,
                        ) == Err::<(), crate::typechecker::TypeErrorView>(e@)
                },
                Ok(p) => {
                    &&& errs.len() == 0
                    &&& first_bridge_error(toks) is None
                    &&& exists|ps: Seq<Token>| bridged(toks, ps) && program_at(ps) == Ok::<
                        Seq<crate::ast::FunctionView>,
                        crate::parser::SyntaxError,
                    >(program_view(p))
                    &&& program_check(program_view(p)) is Ok
                },
            }
        }),
{
    let lexed = lex(source);
    if lexed.errors.len() > 0 {
        return Err(FrontEndError::Lex(lexed.errors));
    }
    let ghost toks = lexed@.0;
    proof {
        assert(toks =~= lexed.tokens@.map_values(|t: crate::lexer::Token| t@));
    }
    let tokens = match bridge_tokens(lexed.tokens) {
        Ok(t) => t,
        Err(m) => {
            return Err(FrontEndError::Unsupported(m));
        },
    };
    let ghost ps = tokens@;
    let mut parser = Parser::new(tokens);
    let program = match parser.parse_program() {
        Ok(p) => p,
        Err(e) => {
            proof {
                assert(bridged(toks, ps));
                assert(program_at(ps) == Err::<Seq<crate::ast::FunctionView>, crate::parser::SyntaxError>(e@));
            }
            return Err(FrontEndError::Parse(e));
        },
    };
    proof {
        assert(bridged(toks, ps));
        assert(program_at(ps) == Ok::<Seq<crate::ast::FunctionView>, crate::parser::SyntaxError>(program_view(program)));
    }
    match TypeChecker::new().check_program(&program) {
        Ok(()) => Ok(program),
        Err(e) => Err(FrontEndError::Type(e)),
    }
}

} // verus!
